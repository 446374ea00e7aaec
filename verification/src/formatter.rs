//! The code formatter: prints a syntax tree back as source, in the layout
//! that the language prefers.
//!
//! Every function here is specified by the text it produces, as a sequence
//! of characters: `program_text` is what `format` returns.
use crate::syntax::ast::{
    line_at, line_before, lines_fit, AssignmentOperator, BinaryOperator, DeclarationIdentifier,
    Expr, Expression, ImportItem, LiteralType, Parameter, Span, Statement, Stmt,
};
use crate::syntax::tokens::LineNumber;
use crate::text::bytes_of;
use vstd::prelude::*;
use vstd::string::{StrSliceExecFns, StringExecFns};

verus! {

// ---------------------------------------------------------------------
// Characters and words
// ---------------------------------------------------------------------

/// Two spaces for each level of indentation.
pub open spec fn indent(n: nat) -> Seq<char>
    decreases n,
{
    if n == 0 {
        Seq::empty()
    } else {
        indent((n - 1) as nat) + "  "@
    }
}

/// One level deeper (the count stops at the largest `usize`).
pub open spec fn deeper(n: usize) -> usize {
    if n < usize::MAX {
        (n + 1) as usize
    } else {
        n
    }
}

/// A newline when `yes` holds.
pub open spec fn newline_if(yes: bool) -> Seq<char> {
    if yes {
        "\n"@
    } else {
        Seq::empty()
    }
}

/// White space as `char::is_whitespace` defines it: the Unicode
/// `White_Space` property.
pub open spec fn is_white(c: char) -> bool {
    let n = c as u32;
    (9 <= n <= 13) || n == 32 || n == 0x85 || n == 0xa0 || n == 0x1680 || (0x2000 <= n <= 0x200a)
        || n == 0x2028 || n == 0x2029 || n == 0x202f || n == 0x205f || n == 0x3000
}

/// The first position at or after `i` that holds `c`, or the length.
pub open spec fn find_char(v: Seq<char>, c: char, i: int) -> int
    decreases v.len() - i,
{
    if i < 0 || i >= v.len() {
        v.len() as int
    } else if v[i] == c {
        i
    } else {
        find_char(v, c, i + 1)
    }
}

/// The first position at or after `i` where `//` starts, or the length.
pub open spec fn find_slashes(v: Seq<char>, i: int) -> int
    decreases v.len() - i,
{
    if i < 0 || i + 1 >= v.len() {
        v.len() as int
    } else if v[i] == '/' && v[i + 1] == '/' {
        i
    } else {
        find_slashes(v, i + 1)
    }
}

/// The text with its first `//` taken out.
pub open spec fn without_slashes(v: Seq<char>) -> Seq<char> {
    let k = find_slashes(v, 0);
    if k < v.len() {
        v.subrange(0, k) + v.subrange(k + 2, v.len() as int)
    } else {
        v
    }
}

/// The first position in `[i, end)` that is not white space, or `end`.
pub open spec fn skip_white(v: Seq<char>, i: int, end: int) -> int
    decreases end - i,
{
    if i >= end || !is_white(v[i]) {
        i
    } else {
        skip_white(v, i + 1, end)
    }
}

/// The end of `[start, end)` once white space is taken off its end.
pub open spec fn trim_white_end(v: Seq<char>, start: int, end: int) -> int
    decreases end - start,
{
    if end <= start || !is_white(v[end - 1]) {
        end
    } else {
        trim_white_end(v, start, end - 1)
    }
}

/// The text without white space at either end, as `str::trim` gives it.
pub open spec fn trimmed(v: Seq<char>) -> Seq<char> {
    let a = skip_white(v, 0, v.len() as int);
    v.subrange(a, trim_white_end(v, a, v.len() as int))
}

/// What a comment says: its text without the first `//`, trimmed.
pub open spec fn comment_body(v: Seq<char>) -> Seq<char> {
    trimmed(without_slashes(v))
}

/// The first position in `[i, end)` that is not a zero digit, or `end`.
pub open spec fn skip_zeros(v: Seq<char>, i: int, end: int) -> int
    decreases end - i,
{
    if i >= end || v[i] != '0' {
        i
    } else {
        skip_zeros(v, i + 1, end)
    }
}

/// The end of `[start, end)` once zero digits are taken off its end.
pub open spec fn trim_zeros(v: Seq<char>, start: int, end: int) -> int
    decreases end - start,
{
    if end <= start || v[end - 1] != '0' {
        end
    } else {
        trim_zeros(v, start, end - 1)
    }
}

/// A number literal as the formatter writes it: unchanged when it uses `_`
/// as a separator, else without leading zeros in its whole part (which is
/// `0` when nothing else is left), without trailing zeros in its
/// fraction, and without the point when the fraction is then empty.
///
/// This is the shortest decimal form of the literal's value when a binary
/// floating-point number holds that value exactly and its digits are few
/// enough to be printed in full (such as `3.00`, `0.5` or `120`). A
/// literal with more digits than a float keeps (such as
/// `0.1000000000000000055511151231257827`) is kept digit for digit here,
/// where printing the parsed float would round it.
pub open spec fn number_text(v: Seq<char>) -> Seq<char> {
    if find_char(v, '_', 0) < v.len() {
        v
    } else {
        let d = find_char(v, '.', 0);
        let s = skip_zeros(v, 0, d);
        let whole = if s == d {
            seq!['0']
        } else {
            v.subrange(s, d)
        };
        let f = if d < v.len() {
            trim_zeros(v, d + 1, v.len() as int)
        } else {
            d
        };
        if d < v.len() && f > d + 1 {
            whole + seq!['.'] + v.subrange(d + 1, f)
        } else {
            whole
        }
    }
}

// ---------------------------------------------------------------------
// Lists
// ---------------------------------------------------------------------

/// How the items of a bracketed list are laid out.
#[derive(Clone, Copy, PartialEq, Eq, Structural)]
pub enum Layout {
    /// On the bracket's line, separated by `, `.
    Inline,
    /// All on one line of their own.
    OneLine,
    /// One to a line.
    Split,
}

/// All the lines are the first one.
pub open spec fn same_line(lines: Seq<int>) -> bool {
    forall|i: int| 0 <= i < lines.len() ==> #[trigger] lines[i] == lines[0]
}

/// The layout of items on `lines` after a bracket on line `start`.
pub open spec fn layout_of(lines: Seq<int>, start: int) -> Layout {
    if lines.len() == 0 || (same_line(lines) && lines.contains(start)) {
        Layout::Inline
    } else if same_line(lines) {
        Layout::OneLine
    } else {
        Layout::Split
    }
}

/// The indentation the items of a list are written at.
pub open spec fn item_indent(layout: Layout, ind: usize) -> usize {
    if layout == Layout::Inline {
        ind
    } else {
        deeper(ind)
    }
}

/// What opens the inside of a list.
pub open spec fn list_open(layout: Layout, ind: usize, padded: bool) -> Seq<char> {
    match layout {
        Layout::Inline => if padded {
            " "@
        } else {
            Seq::empty()
        },
        Layout::OneLine => "\n"@ + indent(deeper(ind) as nat),
        Layout::Split => Seq::empty(),
    }
}

/// What goes before the `i`th item: `, ` between items on the bracket's
/// line, a new line when they are one to a line.
pub open spec fn item_before(layout: Layout, ind: usize, i: int) -> Seq<char> {
    match layout {
        Layout::Inline => if i > 0 {
            ", "@
        } else {
            Seq::empty()
        },
        Layout::OneLine => Seq::empty(),
        Layout::Split => "\n"@ + indent(deeper(ind) as nat),
    }
}

/// What goes after each item.
pub open spec fn item_after(layout: Layout) -> Seq<char> {
    match layout {
        Layout::Inline => Seq::empty(),
        Layout::OneLine => ", "@,
        Layout::Split => ","@,
    }
}

/// What closes the inside of a list.
pub open spec fn list_close(layout: Layout, ind: usize, padded: bool) -> Seq<char> {
    match layout {
        Layout::Inline => if padded {
            " "@
        } else {
            Seq::empty()
        },
        Layout::OneLine => "\n"@,
        Layout::Split => "\n"@ + indent(ind as nat),
    }
}

/// The items whose texts are `t`, each with what goes before and after it.
pub open spec fn items_text(t: Seq<Seq<char>>, layout: Layout, ind: usize) -> Seq<char>
    decreases t.len(),
{
    if t.len() == 0 {
        Seq::empty()
    } else {
        items_text(t.subrange(0, t.len() - 1), layout, ind) + item_before(
            layout,
            ind,
            t.len() - 1,
        ) + t[t.len() - 1] + item_after(layout)
    }
}

/// The inside of a bracketed list whose items read `t`.
pub open spec fn list_text(t: Seq<Seq<char>>, layout: Layout, ind: usize, padded: bool) -> Seq<
    char,
> {
    list_open(layout, ind, padded) + items_text(t, layout, ind) + list_close(layout, ind, padded)
}

/// The line each expression starts on.
pub open spec fn expression_lines(b: Seq<u8>, s: Seq<Expression>) -> Seq<int> {
    s.map_values(|e: Expression| line_at(b, e.span.start as int))
}

/// The line each parameter is on.
pub open spec fn parameter_lines(b: Seq<u8>, s: Seq<Parameter>) -> Seq<int> {
    s.map_values(|p: Parameter| line_at(b, p.span.start as int))
}

/// The line each imported item is on.
pub open spec fn item_lines(b: Seq<u8>, s: Seq<ImportItem>) -> Seq<int> {
    s.map_values(|i: ImportItem| line_at(b, i.span.start as int))
}

/// The line each key of a dictionary starts on.
pub open spec fn entry_lines(b: Seq<u8>, s: Seq<(Expression, Expression)>) -> Seq<int> {
    s.map_values(|kv: (Expression, Expression)| line_at(b, kv.0.span.start as int))
}

/// An imported item: its name, and its alias after `as`.
pub open spec fn import_text(item: ImportItem) -> Seq<char> {
    match item.alias {
        Some(alias) => item.name@ + " as "@ + alias@,
        None => item.name@,
    }
}

pub open spec fn import_texts(s: Seq<ImportItem>) -> Seq<Seq<char>> {
    s.map_values(|i: ImportItem| import_text(i))
}

pub open spec fn parameter_texts(s: Seq<Parameter>) -> Seq<Seq<char>> {
    s.map_values(|p: Parameter| p.name@)
}

pub open spec fn name_texts(s: Seq<&str>) -> Seq<Seq<char>> {
    s.map_values(|n: &str| n@)
}

/// What a declaration binds, as it is written after `let`.
pub open spec fn identifier_text(identifier: DeclarationIdentifier) -> Seq<char> {
    match identifier {
        DeclarationIdentifier::Variable(name) => name@,
        DeclarationIdentifier::Ordered(names) => items_text(name_texts(names@), Layout::Inline, 0),
        DeclarationIdentifier::Named(items) => "{ "@ + items_text(
            import_texts(items@),
            Layout::Inline,
            0,
        ) + " }"@,
    }
}

/// The compound assignment operator that writes `x = x op y` as `x op= y`.
pub open spec fn compound(operator: BinaryOperator) -> Option<AssignmentOperator> {
    match operator {
        BinaryOperator::Plus => Some(AssignmentOperator::Plus),
        BinaryOperator::Minus => Some(AssignmentOperator::Minus),
        BinaryOperator::Multiply => Some(AssignmentOperator::Multiply),
        BinaryOperator::Divide => Some(AssignmentOperator::Divide),
        _ => None,
    }
}

/// A literal as it is written.
pub open spec fn literal_text(type_: LiteralType, value: Seq<char>) -> Seq<char> {
    match type_ {
        LiteralType::String => "'"@ + value + "'"@,
        LiteralType::Number => number_text(value),
        LiteralType::True => "true"@,
        LiteralType::False => "false"@,
        LiteralType::Null => "null"@,
    }
}

// ---------------------------------------------------------------------
// The tree
// ---------------------------------------------------------------------

/// An expression at indentation `ind`, in a source whose bytes are `b`.
pub open spec fn expr_text(b: Seq<u8>, e: Expression, ind: usize) -> Seq<char>
    decreases e, 0nat,
{
    match e.expr {
        Expr::Assignment { identifier, expression } => match expression.expr {
            Expr::Binary { operator, left, right } => if left.expr is Variable
                && left.expr->Variable_name@ == identifier@ && compound(operator) is Some {
                identifier@ + " "@ + compound(operator)->0.spec_text() + " "@ + expr_text(
                    b,
                    *right,
                    ind,
                )
            } else {
                identifier@ + " = "@ + expr_text(b, *expression, ind)
            },
            _ => identifier@ + " = "@ + expr_text(b, *expression, ind),
        },
        Expr::Binary { operator, left, right } => expr_text(b, *left, ind) + " "@
            + operator.spec_text() + " "@ + expr_text(b, *right, ind),
        Expr::Call { expression, arguments } => {
            let layout = layout_of(
                expression_lines(b, arguments@),
                line_at(b, expression.span.start as int),
            );
            expr_text(b, *expression, ind) + "("@ + list_text(
                expr_texts(b, arguments@, item_indent(layout, ind)),
                layout,
                ind,
                false,
            ) + ")"@
        },
        Expr::Comment { expression, text } => expr_text(b, *expression, ind) + " // "@
            + comment_body(text@),
        Expr::Dictionary { items } => {
            let layout = layout_of(entry_lines(b, items@), line_at(b, e.span.start as int));
            "{"@ + list_text(entry_texts(b, items@, item_indent(layout, ind)), layout, ind, true)
                + "}"@
        },
        Expr::FormatString { strings, expressions } => "'"@ + format_text(
            b,
            strings@,
            expressions@,
            ind,
        ) + "'"@,
        Expr::Function { parameters, body, .. } => {
            let layout = layout_of(parameter_lines(b, parameters@), line_at(b, e.span.start as int));
            "("@ + list_text(parameter_texts(parameters@), layout, ind, false) + match body.stmt {
                Stmt::Return { expression: Some(value) } => ") => "@ + expr_text(b, value, ind),
                _ => ") ->\n"@ + stmt_text(b, *body, ind, false),
            }
        },
        Expr::Group { expression } => group_text(b, *expression, ind),
        Expr::Index { expression, index } => expr_text(b, *expression, ind) + "["@ + expr_text(
            b,
            *index,
            ind,
        ) + "]"@,
        Expr::IndexAssignment { expression, index, value, assignment_operator } => expr_text(
            b,
            *expression,
            ind,
        ) + "["@ + expr_text(b, *index, ind) + "] "@ + match assignment_operator {
            Some(operator) => operator.spec_text(),
            None => "="@,
        } + " "@ + expr_text(b, *value, ind),
        Expr::List { items } => {
            let layout = layout_of(expression_lines(b, items@), line_at(b, e.span.start as int));
            "["@ + list_text(expr_texts(b, items@, item_indent(layout, ind)), layout, ind, false)
                + "]"@
        },
        Expr::Literal { type_, value } => literal_text(type_, value@),
        Expr::ModuleAccess { module, item } => module@ + "::"@ + item@,
        Expr::Unary { operator, expression } => operator.spec_text() + expr_text(
            b,
            *expression,
            ind,
        ),
        Expr::Variable { name } => name@,
    }
}

/// The texts of a list of expressions.
pub open spec fn expr_texts(b: Seq<u8>, s: Seq<Expression>, ind: usize) -> Seq<Seq<char>>
    decreases s, 0nat,
{
    if s.len() == 0 {
        Seq::empty()
    } else {
        expr_texts(b, s.subrange(0, s.len() - 1), ind).push(expr_text(b, s[s.len() - 1], ind))
    }
}

/// An entry of a dictionary, `key: value`.
pub open spec fn entry_text(b: Seq<u8>, kv: (Expression, Expression), ind: usize) -> Seq<char>
    decreases kv, 0nat,
{
    expr_text(b, kv.0, ind) + ": "@ + expr_text(b, kv.1, ind)
}

/// The texts of the entries of a dictionary.
pub open spec fn entry_texts(b: Seq<u8>, s: Seq<(Expression, Expression)>, ind: usize) -> Seq<
    Seq<char>,
>
    decreases s, 0nat,
{
    if s.len() == 0 {
        Seq::empty()
    } else {
        entry_texts(b, s.subrange(0, s.len() - 1), ind).push(entry_text(b, s[s.len() - 1], ind))
    }
}

/// The inside of a format string: its pieces of text, with each expression
/// between two of them in `${` and `}`.
pub open spec fn format_text(
    b: Seq<u8>,
    strings: Seq<String>,
    expressions: Seq<Expression>,
    ind: usize,
) -> Seq<char>
    decreases expressions, 0nat,
{
    let n = expressions.len();
    if n == 0 {
        if strings.len() > 0 {
            strings[0]@
        } else {
            Seq::empty()
        }
    } else {
        format_text(b, strings, expressions.subrange(0, n - 1), ind) + "${"@ + expr_text(
            b,
            expressions[n - 1],
            ind,
        ) + "}"@ + if n < strings.len() {
            strings[n as int]@
        } else {
            Seq::empty()
        }
    }
}

/// An expression in brackets: on one line when it is on one line in the
/// source, else on lines of its own between the brackets.
pub open spec fn group_text(b: Seq<u8>, e: Expression, ind: usize) -> Seq<char>
    decreases e, 1nat,
{
    if line_at(b, e.span.start as int) == line_before(b, e.span.end as int) {
        "("@ + expr_text(b, e, deeper(ind)) + ")"@
    } else {
        "(\n"@ + indent(deeper(ind) as nat) + expr_text(b, e, deeper(ind)) + "\n"@ + indent(
            ind as nat,
        ) + ")"@
    }
}

/// A statement at indentation `ind`, followed by a newline when `newline`
/// holds and it is not a block.
pub open spec fn stmt_text(b: Seq<u8>, s: Statement, ind: usize, newline: bool) -> Seq<char>
    decreases s, 0nat,
{
    match s.stmt {
        Stmt::Block { body } => block_text(b, body@, ind),
        Stmt::Comment { text } => "// "@ + comment_body(text@) + newline_if(newline),
        Stmt::Declaration { identifier, expression, .. } => "let "@ + identifier_text(identifier)
            + " = "@ + match expression {
            Some(value) => expr_text(b, value, ind),
            None => Seq::empty(),
        } + newline_if(newline),
        Stmt::Expression { expression } => expr_text(b, expression, ind) + newline_if(newline),
        Stmt::If { condition, then, otherwise } => "if "@ + group_text(b, condition, ind)
            + inline_text(b, *then, ind, false) + match otherwise {
            Some(other) => "\n"@ + indent(ind as nat) + "else"@ + inline_text(b, *other, ind, false),
            None => Seq::empty(),
        } + newline_if(newline),
        Stmt::Import { module, items } => {
            let layout = layout_of(item_lines(b, items@), line_at(b, s.span.start as int));
            "from "@ + module@ + " import {"@ + list_text(import_texts(items@), layout, ind, true)
                + "}"@ + newline_if(newline)
        },
        Stmt::Return { expression } => "return "@ + match expression {
            Some(value) => expr_text(b, value, ind),
            None => Seq::empty(),
        } + newline_if(newline),
        Stmt::While { condition, body } => "while "@ + group_text(b, condition, ind) + inline_text(
            b,
            *body,
            ind,
            false,
        ) + newline_if(newline),
    }
}

/// The statements of a block, each on a line of its own one level deeper.
pub open spec fn block_text(b: Seq<u8>, body: Seq<Statement>, ind: usize) -> Seq<char>
    decreases body, 1nat,
{
    if body.len() == 0 {
        Seq::empty()
    } else {
        lines_text(b, body.subrange(0, body.len() - 1), ind) + indent(deeper(ind) as nat)
            + stmt_text(b, body[body.len() - 1], deeper(ind), false)
    }
}

/// Statements of a block other than the last, each ending its line.
pub open spec fn lines_text(b: Seq<u8>, s: Seq<Statement>, ind: usize) -> Seq<char>
    decreases s, 0nat,
{
    if s.len() == 0 {
        Seq::empty()
    } else {
        lines_text(b, s.subrange(0, s.len() - 1), ind) + indent(deeper(ind) as nat) + stmt_text(
            b,
            s[s.len() - 1],
            deeper(ind),
            true,
        )
    }
}

/// The body of an `if`, `else` or `while`: after a space when it is one
/// statement, else as a block on the lines below.
pub open spec fn inline_text(b: Seq<u8>, s: Statement, ind: usize, trailing: bool) -> Seq<char>
    decreases s, 1nat,
{
    match s.stmt {
        Stmt::Block { body } => if body.len() > 1 {
            "\n"@ + stmt_text(b, s, ind, true)
        } else if body.len() == 1 {
            " "@ + stmt_text(b, body@[0], ind, false) + newline_if(trailing)
        } else {
            " "@ + newline_if(trailing)
        },
        _ => " "@ + stmt_text(b, s, ind, false) + newline_if(trailing),
    }
}

/// A blank line goes before the `i`th statement when one or more lines lie
/// between it and the statement before.
pub open spec fn gap_before(b: Seq<u8>, ast: Seq<Statement>, i: int) -> bool {
    i > 0 && line_at(b, ast[i - 1].span.start as int) + 1 < line_at(b, ast[i].span.start as int)
}

/// The first `n` statements of a program.
pub open spec fn statements_text(b: Seq<u8>, ast: Seq<Statement>, n: int) -> Seq<char>
    decreases n,
{
    if n <= 0 {
        Seq::empty()
    } else {
        statements_text(b, ast, n - 1) + newline_if(gap_before(b, ast, n - 1)) + stmt_text(
            b,
            ast[n - 1],
            0,
            true,
        )
    }
}

/// A whole program as the formatter writes it.
pub open spec fn program_text(b: Seq<u8>, ast: Seq<Statement>) -> Seq<char> {
    statements_text(b, ast, ast.len() as int)
}

// ---------------------------------------------------------------------
// Facts about the texts
// ---------------------------------------------------------------------

proof fn lemma_items_step(t: Seq<Seq<char>>, layout: Layout, ind: usize, i: int)
    requires
        0 <= i < t.len(),
    ensures
        items_text(t.subrange(0, i + 1), layout, ind) == items_text(t.subrange(0, i), layout, ind)
            + item_before(layout, ind, i) + t[i] + item_after(layout),
{
    assert(t.subrange(0, i + 1).subrange(0, i) =~= t.subrange(0, i));
}

proof fn lemma_expr_texts(b: Seq<u8>, s: Seq<Expression>, ind: usize)
    ensures
        expr_texts(b, s, ind).len() == s.len(),
        forall|k: int| 0 <= k < s.len() ==> #[trigger] expr_texts(b, s, ind)[k] == expr_text(b, s[k], ind),
    decreases s.len(),
{
    if s.len() > 0 {
        let p = s.subrange(0, s.len() - 1);
        lemma_expr_texts(b, p, ind);
        assert forall|k: int| 0 <= k < s.len() implies #[trigger] expr_texts(b, s, ind)[k]
            == expr_text(b, s[k], ind) by {
            if k < s.len() - 1 {
                assert(p[k] == s[k]);
            }
        }
    }
}

proof fn lemma_entry_texts(b: Seq<u8>, s: Seq<(Expression, Expression)>, ind: usize)
    ensures
        entry_texts(b, s, ind).len() == s.len(),
        forall|k: int| 0 <= k < s.len() ==> #[trigger] entry_texts(b, s, ind)[k] == entry_text(b, s[k], ind),
    decreases s.len(),
{
    if s.len() > 0 {
        let p = s.subrange(0, s.len() - 1);
        lemma_entry_texts(b, p, ind);
        assert forall|k: int| 0 <= k < s.len() implies #[trigger] entry_texts(b, s, ind)[k]
            == entry_text(b, s[k], ind) by {
            if k < s.len() - 1 {
                assert(p[k] == s[k]);
            }
        }
    }
}

proof fn lemma_lines_step(b: Seq<u8>, s: Seq<Statement>, ind: usize, i: int)
    requires
        0 <= i < s.len(),
    ensures
        lines_text(b, s.subrange(0, i + 1), ind) == lines_text(b, s.subrange(0, i), ind) + indent(
            deeper(ind) as nat,
        ) + stmt_text(b, s[i], deeper(ind), true),
{
    assert(s.subrange(0, i + 1).subrange(0, i) =~= s.subrange(0, i));
}

proof fn lemma_format_step(b: Seq<u8>, strings: Seq<String>, s: Seq<Expression>, ind: usize, i: int)
    requires
        0 <= i < s.len(),
    ensures
        format_text(b, strings, s.subrange(0, i + 1), ind) == format_text(
            b,
            strings,
            s.subrange(0, i),
            ind,
        ) + "${"@ + expr_text(b, s[i], ind) + "}"@ + if i + 1 < strings.len() {
            strings[i + 1]@
        } else {
            Seq::empty()
        },
{
    assert(s.subrange(0, i + 1).subrange(0, i) =~= s.subrange(0, i));
}

// ---------------------------------------------------------------------
// Writing
// ---------------------------------------------------------------------

fn next_level(n: usize) -> (r: usize)
    ensures
        r == deeper(n),
{
    if n < usize::MAX {
        n + 1
    } else {
        n
    }
}

fn write_indent(out: &mut String, n: usize)
    ensures
        final(out)@ == old(out)@ + indent(n as nat),
{
    let mut i: usize = 0;
    while i < n
        invariant
            i <= n,
            out@ == old(out)@ + indent(i as nat),
        decreases n - i,
    {
        out.append("  ");
        i = i + 1;
        assert(out@ =~= old(out)@ + indent(i as nat));
    }
}

fn write_newline_if(out: &mut String, yes: bool)
    ensures
        final(out)@ == old(out)@ + newline_if(yes),
{
    if yes {
        out.append("\n");
    } else {
        assert(out@ =~= out@ + newline_if(yes));
    }
}

/// Whether two texts hold the same characters.
fn same_text(a: &str, b: &str) -> (r: bool)
    ensures
        r == (a@ == b@),
{
    let n = a.unicode_len();
    if n != b.unicode_len() {
        return false;
    }
    let mut i: usize = 0;
    while i < n
        invariant
            n == a@.len(),
            n == b@.len(),
            i <= n,
            forall|k: int| 0 <= k < i ==> a@[k] == b@[k],
        decreases n - i,
    {
        if a.get_char(i) != b.get_char(i) {
            return false;
        }
        i = i + 1;
    }
    assert(a@ =~= b@);
    true
}

fn is_white_char(c: char) -> (r: bool)
    ensures
        r == is_white(c),
{
    let n = c as u32;
    (9 <= n && n <= 13) || n == 32 || n == 0x85 || n == 0xa0 || n == 0x1680 || (0x2000 <= n && n
        <= 0x200a) || n == 0x2028 || n == 0x2029 || n == 0x202f || n == 0x205f || n == 0x3000
}

/// Writes what a comment says.
fn write_comment_body(out: &mut String, text: &str)
    ensures
        final(out)@ == old(out)@ + comment_body(text@),
{
    let ghost v = text@;
    let n = text.unicode_len();
    let mut k: usize = 0;
    let mut found = false;
    while !found && n > 0 && k < n - 1
        invariant
            v == text@,
            n == v.len(),
            k < n || n == 0,
            find_slashes(v, k as int) == find_slashes(v, 0),
            found ==> k + 1 < n && v[k as int] == '/' && v[k + 1] == '/',
        decreases n - k + if found { 0int } else { 1int },
    {
        if text.get_char(k) == '/' && text.get_char(k + 1) == '/' {
            found = true;
        } else {
            k = k + 1;
        }
    }
    let mut rest = String::from_str("");
    proof {
        reveal_strlit("");
    }
    if found {
        rest.append(text.substring_char(0, k));
        rest.append(text.substring_char(k + 2, n));
    } else {
        rest.append(text);
    }
    assert(rest@ =~= without_slashes(v));
    let r = rest.as_str();
    let ghost w = r@;
    let m = r.unicode_len();
    let mut a: usize = 0;
    let mut stop = false;
    while !stop && a < m
        invariant
            w == r@,
            m == w.len(),
            a <= m,
            skip_white(w, a as int, m as int) == skip_white(w, 0, m as int),
            stop ==> a < m && !is_white(w[a as int]),
        decreases m - a + if stop { 0int } else { 1int },
    {
        if is_white_char(r.get_char(a)) {
            a = a + 1;
        } else {
            stop = true;
        }
    }
    let mut z: usize = m;
    let mut stop_end = false;
    while !stop_end && z > a
        invariant
            w == r@,
            m == w.len(),
            a <= z <= m,
            trim_white_end(w, a as int, z as int) == trim_white_end(w, a as int, m as int),
            stop_end ==> z > a && !is_white(w[z - 1]),
        decreases z + if stop_end { 0int } else { 1int },
    {
        if is_white_char(r.get_char(z - 1)) {
            z = z - 1;
        } else {
            stop_end = true;
        }
    }
    out.append(r.substring_char(a, z));
}

/// The first position from `i` on that holds `c`, or the length.
fn find_in(value: &str, n: usize, c: char, i: usize) -> (r: usize)
    requires
        n == value@.len(),
        i <= n,
    ensures
        r == find_char(value@, c, i as int),
        i <= r <= n,
{
    let mut k = i;
    let mut found = false;
    while !found && k < n
        invariant
            n == value@.len(),
            i <= k <= n,
            find_char(value@, c, k as int) == find_char(value@, c, i as int),
            found ==> k < n && value@[k as int] == c,
        decreases n - k + if found { 0int } else { 1int },
    {
        if value.get_char(k) == c {
            found = true;
        } else {
            k = k + 1;
        }
    }
    k
}

/// Writes a number literal in its simplest form.
pub(crate) fn write_number(out: &mut String, value: &str)
    ensures
        final(out)@ == old(out)@ + number_text(value@),
{
    let ghost v = value@;
    let n = value.unicode_len();
    let underscore = find_in(value, n, '_', 0);
    if underscore < n {
        out.append(value);
        return ;
    }
    let d = find_in(value, n, '.', 0);
    let mut s: usize = 0;
    let mut stop = false;
    while !stop && s < d
        invariant
            v == value@,
            n == v.len(),
            d <= n,
            s <= d,
            skip_zeros(v, s as int, d as int) == skip_zeros(v, 0, d as int),
            stop ==> s < d && v[s as int] != '0',
        decreases d - s + if stop { 0int } else { 1int },
    {
        if value.get_char(s) == '0' {
            s = s + 1;
        } else {
            stop = true;
        }
    }
    let ghost whole_start = out@;
    if s == d {
        out.append("0");
        proof {
            reveal_strlit("0");
            assert(out@ =~= whole_start + seq!['0']);
        }
    } else {
        out.append(value.substring_char(s, d));
    }
    let ghost whole = out@.subrange(whole_start.len() as int, out@.len() as int);
    assert(out@ =~= whole_start + whole);
    if d < n {
        let mut f: usize = n;
        let mut stop_end = false;
        while !stop_end && f > d + 1
            invariant
                v == value@,
                n == v.len(),
                d < n,
                d + 1 <= f <= n,
                trim_zeros(v, d + 1, f as int) == trim_zeros(v, d + 1, n as int),
                stop_end ==> f > d + 1 && v[f - 1] != '0',
            decreases f + if stop_end { 0int } else { 1int },
        {
            if value.get_char(f - 1) == '0' {
                f = f - 1;
            } else {
                stop_end = true;
            }
        }
        if f > d + 1 {
            out.append(".");
            proof {
                reveal_strlit(".");
            }
            out.append(value.substring_char(d + 1, f));
            assert(out@ =~= old(out)@ + number_text(v));
        } else {
            assert(out@ =~= old(out)@ + number_text(v));
        }
    } else {
        assert(out@ =~= old(out)@ + number_text(v));
    }
}

/// The layout of a list whose items are on `lines`, after a bracket on
/// line `start`.
fn layout(lines: &Vec<LineNumber>, start: LineNumber) -> (r: Layout)
    ensures
        r == layout_of(lines@.map_values(|l: LineNumber| l as int), start as int),
{
    let ghost ints = lines@.map_values(|l: LineNumber| l as int);
    let n = lines.len();
    if n == 0 {
        return Layout::Inline;
    }
    let first = lines[0];
    let mut same = true;
    let mut contains = false;
    let mut i: usize = 0;
    while i < n
        invariant
            n == lines@.len(),
            ints == lines@.map_values(|l: LineNumber| l as int),
            first == lines@[0],
            i <= n,
            same == (forall|k: int| 0 <= k < i ==> lines@[k] == first),
            contains == (exists|k: int| 0 <= k < i && lines@[k] == start),
        decreases n - i,
    {
        if lines[i] != first {
            same = false;
        }
        if lines[i] == start {
            contains = true;
        }
        i = i + 1;
    }
    proof {
        assert(same == same_line(ints)) by {
            if same {
                assert forall|k: int| 0 <= k < ints.len() implies #[trigger] ints[k] == ints[0] by {
                    assert(lines@[k] == first);
                }
            } else {
                let k = choose|k: int| 0 <= k < n && lines@[k] != first;
                assert(ints[k] != ints[0]);
            }
        }
        assert(contains == ints.contains(start as int)) by {
            if contains {
                let k = choose|k: int| 0 <= k < n && lines@[k] == start;
                assert(ints[k] == start);
            } else {
                assert forall|k: int| 0 <= k < ints.len() implies ints[k] != start by {
                    assert(lines@[k] != start);
                }
            }
        }
    }
    if same && contains {
        Layout::Inline
    } else if same {
        Layout::OneLine
    } else {
        Layout::Split
    }
}

fn write_list_open(out: &mut String, layout: Layout, ind: usize, padded: bool)
    ensures
        final(out)@ == old(out)@ + list_open(layout, ind, padded),
{
    match layout {
        Layout::Inline => {
            if padded {
                out.append(" ");
            } else {
                assert(out@ =~= out@ + Seq::<char>::empty());
            }
        },
        Layout::OneLine => {
            out.append("\n");
            write_indent(out, next_level(ind));
        },
        Layout::Split => {
            assert(out@ =~= out@ + Seq::<char>::empty());
        },
    }
    assert(out@ =~= old(out)@ + list_open(layout, ind, padded));
}

fn write_item_before(out: &mut String, layout: Layout, ind: usize, i: usize)
    ensures
        final(out)@ == old(out)@ + item_before(layout, ind, i as int),
{
    match layout {
        Layout::Inline => {
            if i > 0 {
                out.append(", ");
            } else {
                assert(out@ =~= out@ + Seq::<char>::empty());
            }
        },
        Layout::OneLine => {
            assert(out@ =~= out@ + Seq::<char>::empty());
        },
        Layout::Split => {
            out.append("\n");
            write_indent(out, next_level(ind));
        },
    }
    assert(out@ =~= old(out)@ + item_before(layout, ind, i as int));
}

fn write_item_after(out: &mut String, layout: Layout)
    ensures
        final(out)@ == old(out)@ + item_after(layout),
{
    match layout {
        Layout::Inline => {
            assert(out@ =~= out@ + Seq::<char>::empty());
        },
        Layout::OneLine => {
            out.append(", ");
        },
        Layout::Split => {
            out.append(",");
        },
    }
}

fn write_list_close(out: &mut String, layout: Layout, ind: usize, padded: bool)
    ensures
        final(out)@ == old(out)@ + list_close(layout, ind, padded),
{
    match layout {
        Layout::Inline => {
            if padded {
                out.append(" ");
            } else {
                assert(out@ =~= out@ + Seq::<char>::empty());
            }
        },
        Layout::OneLine => {
            out.append("\n");
        },
        Layout::Split => {
            out.append("\n");
            write_indent(out, ind);
        },
    }
    assert(out@ =~= old(out)@ + list_close(layout, ind, padded));
}

fn item_level(layout: Layout, ind: usize) -> (r: usize)
    ensures
        r == item_indent(layout, ind),
{
    if layout == Layout::Inline {
        ind
    } else {
        next_level(ind)
    }
}

fn write_literal(out: &mut String, type_: LiteralType, value: &str)
    ensures
        final(out)@ == old(out)@ + literal_text(type_, value@),
{
    match type_ {
        LiteralType::String => {
            out.append("'");
            out.append(value);
            out.append("'");
        },
        LiteralType::Number => write_number(out, value),
        LiteralType::True => out.append("true"),
        LiteralType::False => out.append("false"),
        LiteralType::Null => out.append("null"),
    }
    assert(out@ =~= old(out)@ + literal_text(type_, value@));
}

fn write_import_item(out: &mut String, item: &ImportItem)
    ensures
        final(out)@ == old(out)@ + import_text(*item),
{
    out.append(item.name);
    match item.alias {
        Some(alias) => {
            out.append(" as ");
            out.append(alias);
        },
        None => {
            assert(out@ =~= old(out)@ + import_text(*item));
        },
    }
    assert(out@ =~= old(out)@ + import_text(*item));
}

fn write_names(out: &mut String, names: &Vec<&str>)
    ensures
        final(out)@ == old(out)@ + items_text(name_texts(names@), Layout::Inline, 0),
{
    let ghost t = name_texts(names@);
    let mut i: usize = 0;
    while i < names.len()
        invariant
            i <= names@.len(),
            t == name_texts(names@),
            out@ == old(out)@ + items_text(t.subrange(0, i as int), Layout::Inline, 0),
        decreases names@.len() - i,
    {
        proof {
            lemma_items_step(t, Layout::Inline, 0, i as int);
        }
        write_item_before(out, Layout::Inline, 0, i);
        out.append(names[i]);
        write_item_after(out, Layout::Inline);
        i = i + 1;
        assert(out@ =~= old(out)@ + items_text(t.subrange(0, i as int), Layout::Inline, 0));
    }
    assert(t.subrange(0, names@.len() as int) =~= t);
}

fn write_import_items_inline(out: &mut String, items: &Vec<ImportItem>)
    ensures
        final(out)@ == old(out)@ + items_text(import_texts(items@), Layout::Inline, 0),
{
    let ghost t = import_texts(items@);
    let mut i: usize = 0;
    while i < items.len()
        invariant
            i <= items@.len(),
            t == import_texts(items@),
            out@ == old(out)@ + items_text(t.subrange(0, i as int), Layout::Inline, 0),
        decreases items@.len() - i,
    {
        proof {
            lemma_items_step(t, Layout::Inline, 0, i as int);
        }
        write_item_before(out, Layout::Inline, 0, i);
        write_import_item(out, &items[i]);
        write_item_after(out, Layout::Inline);
        i = i + 1;
        assert(out@ =~= old(out)@ + items_text(t.subrange(0, i as int), Layout::Inline, 0));
    }
    assert(t.subrange(0, items@.len() as int) =~= t);
}

fn write_identifier(out: &mut String, identifier: &DeclarationIdentifier)
    ensures
        final(out)@ == old(out)@ + identifier_text(*identifier),
{
    match identifier {
        DeclarationIdentifier::Variable(name) => out.append(name),
        DeclarationIdentifier::Ordered(names) => write_names(out, names),
        DeclarationIdentifier::Named(items) => {
            out.append("{ ");
            write_import_items_inline(out, items);
            out.append(" }");
        },
    }
    assert(out@ =~= old(out)@ + identifier_text(*identifier));
}

/// The formatter over one source: what it needs to number lines.
struct Formatter<'source> {
    source: &'source str,
}

impl<'source> Formatter<'source> {
    spec fn b(&self) -> Seq<u8> {
        bytes_of(self.source)
    }

    fn line(&self, span: &Span) -> (r: LineNumber)
        requires
            lines_fit(self.b()),
        ensures
            r == line_at(self.b(), span.start as int),
    {
        span.get_line_number(self.source)
    }

    fn line_end(&self, span: &Span) -> (r: LineNumber)
        requires
            lines_fit(self.b()),
        ensures
            r == line_before(self.b(), span.end as int),
    {
        span.get_line_number_end(self.source)
    }

    fn expression_line_list(&self, items: &Vec<Expression>) -> (r: Vec<LineNumber>)
        requires
            lines_fit(self.b()),
        ensures
            r@.map_values(|l: LineNumber| l as int) == expression_lines(self.b(), items@),
    {
        let ghost b = self.b();
        let mut lines: Vec<LineNumber> = Vec::new();
        let mut i: usize = 0;
        while i < items.len()
            invariant
                lines_fit(b),
                b == self.b(),
                i <= items@.len(),
                lines@.len() == i,
                forall|k: int| 0 <= k < i ==> #[trigger] lines@[k] as int == line_at(b, items@[k].span.start as int),
            decreases items@.len() - i,
        {
            let line = self.line(&items[i].span);
            lines.push(line);
            i = i + 1;
        }
        assert(lines@.map_values(|l: LineNumber| l as int) =~= expression_lines(b, items@));
        lines
    }

    fn entry_line_list(&self, items: &Vec<(Expression, Expression)>) -> (r: Vec<LineNumber>)
        requires
            lines_fit(self.b()),
        ensures
            r@.map_values(|l: LineNumber| l as int) == entry_lines(self.b(), items@),
    {
        let ghost b = self.b();
        let mut lines: Vec<LineNumber> = Vec::new();
        let mut i: usize = 0;
        while i < items.len()
            invariant
                lines_fit(b),
                b == self.b(),
                i <= items@.len(),
                lines@.len() == i,
                forall|k: int| 0 <= k < i ==> #[trigger] lines@[k] as int == line_at(b, items@[k].0.span.start as int),
            decreases items@.len() - i,
        {
            let line = self.line(&items[i].0.span);
            lines.push(line);
            i = i + 1;
        }
        assert(lines@.map_values(|l: LineNumber| l as int) =~= entry_lines(b, items@));
        lines
    }

    fn parameter_line_list(&self, items: &Vec<Parameter>) -> (r: Vec<LineNumber>)
        requires
            lines_fit(self.b()),
        ensures
            r@.map_values(|l: LineNumber| l as int) == parameter_lines(self.b(), items@),
    {
        let ghost b = self.b();
        let mut lines: Vec<LineNumber> = Vec::new();
        let mut i: usize = 0;
        while i < items.len()
            invariant
                lines_fit(b),
                b == self.b(),
                i <= items@.len(),
                lines@.len() == i,
                forall|k: int| 0 <= k < i ==> #[trigger] lines@[k] as int == line_at(b, items@[k].span.start as int),
            decreases items@.len() - i,
        {
            let line = self.line(&items[i].span);
            lines.push(line);
            i = i + 1;
        }
        assert(lines@.map_values(|l: LineNumber| l as int) =~= parameter_lines(b, items@));
        lines
    }

    fn item_line_list(&self, items: &Vec<ImportItem>) -> (r: Vec<LineNumber>)
        requires
            lines_fit(self.b()),
        ensures
            r@.map_values(|l: LineNumber| l as int) == item_lines(self.b(), items@),
    {
        let ghost b = self.b();
        let mut lines: Vec<LineNumber> = Vec::new();
        let mut i: usize = 0;
        while i < items.len()
            invariant
                lines_fit(b),
                b == self.b(),
                i <= items@.len(),
                lines@.len() == i,
                forall|k: int| 0 <= k < i ==> #[trigger] lines@[k] as int == line_at(b, items@[k].span.start as int),
            decreases items@.len() - i,
        {
            let line = self.line(&items[i].span);
            lines.push(line);
            i = i + 1;
        }
        assert(lines@.map_values(|l: LineNumber| l as int) =~= item_lines(b, items@));
        lines
    }

    fn write_group(&self, e: &Expression, ind: usize, out: &mut String)
        requires
            lines_fit(self.b()),
        ensures
            final(out)@ == old(out)@ + group_text(self.b(), *e, ind),
        decreases e, 1nat,
    {
        let inner = next_level(ind);
        if self.line(&e.span) == self.line_end(&e.span) {
            out.append("(");
            self.write_expression(e, inner, out);
            out.append(")");
        } else {
            out.append("(\n");
            write_indent(out, inner);
            self.write_expression(e, inner, out);
            out.append("\n");
            write_indent(out, ind);
            out.append(")");
        }
        assert(out@ =~= old(out)@ + group_text(self.b(), *e, ind));
    }

    fn write_expressions(
        &self,
        items: &Vec<Expression>,
        start: LineNumber,
        ind: usize,
        padded: bool,
        out: &mut String,
    )
        requires
            lines_fit(self.b()),
        ensures
            ({
                let layout = layout_of(expression_lines(self.b(), items@), start as int);
                final(out)@ == old(out)@ + list_text(
                    expr_texts(self.b(), items@, item_indent(layout, ind)),
                    layout,
                    ind,
                    padded,
                )
            }),
        decreases items, 0nat,
    {
        let ghost b = self.b();
        let lines = self.expression_line_list(items);
        let layout = layout(&lines, start);
        let inner = item_level(layout, ind);
        let ghost t = expr_texts(b, items@, inner);
        proof {
            lemma_expr_texts(b, items@, inner);
        }
        write_list_open(out, layout, ind, padded);
        let ghost opened = out@;
        let mut i: usize = 0;
        while i < items.len()
            invariant
                lines_fit(b),
                b == self.b(),
                i <= items@.len(),
                t == expr_texts(b, items@, inner),
                t.len() == items@.len(),
                forall|k: int| 0 <= k < items@.len() ==> #[trigger] t[k] == expr_text(b, items@[k], inner),
                out@ == opened + items_text(t.subrange(0, i as int), layout, ind),
            decreases items@.len() - i,
        {
            proof {
                lemma_items_step(t, layout, ind, i as int);
            }
            write_item_before(out, layout, ind, i);
            self.write_expression(&items[i], inner, out);
            write_item_after(out, layout);
            i = i + 1;
            assert(out@ =~= opened + items_text(t.subrange(0, i as int), layout, ind));
        }
        assert(t.subrange(0, items@.len() as int) =~= t);
        write_list_close(out, layout, ind, padded);
        assert(out@ =~= old(out)@ + list_text(t, layout, ind, padded));
    }

    fn write_entry(&self, kv: &(Expression, Expression), ind: usize, out: &mut String)
        requires
            lines_fit(self.b()),
        ensures
            final(out)@ == old(out)@ + entry_text(self.b(), *kv, ind),
        decreases kv, 1nat,
    {
        self.write_expression(&kv.0, ind, out);
        out.append(": ");
        self.write_expression(&kv.1, ind, out);
        assert(out@ =~= old(out)@ + entry_text(self.b(), *kv, ind));
    }

    fn write_entries(
        &self,
        items: &Vec<(Expression, Expression)>,
        start: LineNumber,
        ind: usize,
        out: &mut String,
    )
        requires
            lines_fit(self.b()),
        ensures
            ({
                let layout = layout_of(entry_lines(self.b(), items@), start as int);
                final(out)@ == old(out)@ + list_text(
                    entry_texts(self.b(), items@, item_indent(layout, ind)),
                    layout,
                    ind,
                    true,
                )
            }),
        decreases items, 0nat,
    {
        let ghost b = self.b();
        let lines = self.entry_line_list(items);
        let layout = layout(&lines, start);
        let inner = item_level(layout, ind);
        let ghost t = entry_texts(b, items@, inner);
        proof {
            lemma_entry_texts(b, items@, inner);
        }
        write_list_open(out, layout, ind, true);
        let ghost opened = out@;
        let mut i: usize = 0;
        while i < items.len()
            invariant
                lines_fit(b),
                b == self.b(),
                i <= items@.len(),
                t == entry_texts(b, items@, inner),
                t.len() == items@.len(),
                forall|k: int| 0 <= k < items@.len() ==> #[trigger] t[k] == entry_text(b, items@[k], inner),
                out@ == opened + items_text(t.subrange(0, i as int), layout, ind),
            decreases items@.len() - i,
        {
            proof {
                lemma_items_step(t, layout, ind, i as int);
            }
            write_item_before(out, layout, ind, i);
            self.write_entry(&items[i], inner, out);
            write_item_after(out, layout);
            i = i + 1;
            assert(out@ =~= opened + items_text(t.subrange(0, i as int), layout, ind));
        }
        assert(t.subrange(0, items@.len() as int) =~= t);
        write_list_close(out, layout, ind, true);
        assert(out@ =~= old(out)@ + list_text(t, layout, ind, true));
    }

    fn write_parameters(&self, items: &Vec<Parameter>, start: LineNumber, ind: usize, out: &mut String)
        requires
            lines_fit(self.b()),
        ensures
            final(out)@ == old(out)@ + list_text(
                parameter_texts(items@),
                layout_of(parameter_lines(self.b(), items@), start as int),
                ind,
                false,
            ),
    {
        let ghost b = self.b();
        let lines = self.parameter_line_list(items);
        let layout = layout(&lines, start);
        let ghost t = parameter_texts(items@);
        write_list_open(out, layout, ind, false);
        let ghost opened = out@;
        let mut i: usize = 0;
        while i < items.len()
            invariant
                i <= items@.len(),
                t == parameter_texts(items@),
                out@ == opened + items_text(t.subrange(0, i as int), layout, ind),
            decreases items@.len() - i,
        {
            proof {
                lemma_items_step(t, layout, ind, i as int);
            }
            write_item_before(out, layout, ind, i);
            out.append(items[i].name);
            write_item_after(out, layout);
            i = i + 1;
            assert(out@ =~= opened + items_text(t.subrange(0, i as int), layout, ind));
        }
        assert(t.subrange(0, items@.len() as int) =~= t);
        write_list_close(out, layout, ind, false);
        assert(out@ =~= old(out)@ + list_text(t, layout, ind, false));
    }

    fn write_import_items(&self, items: &Vec<ImportItem>, start: LineNumber, ind: usize, out: &mut String)
        requires
            lines_fit(self.b()),
        ensures
            final(out)@ == old(out)@ + list_text(
                import_texts(items@),
                layout_of(item_lines(self.b(), items@), start as int),
                ind,
                true,
            ),
    {
        let ghost b = self.b();
        let lines = self.item_line_list(items);
        let layout = layout(&lines, start);
        let ghost t = import_texts(items@);
        write_list_open(out, layout, ind, true);
        let ghost opened = out@;
        let mut i: usize = 0;
        while i < items.len()
            invariant
                i <= items@.len(),
                t == import_texts(items@),
                out@ == opened + items_text(t.subrange(0, i as int), layout, ind),
            decreases items@.len() - i,
        {
            proof {
                lemma_items_step(t, layout, ind, i as int);
            }
            write_item_before(out, layout, ind, i);
            write_import_item(out, &items[i]);
            write_item_after(out, layout);
            i = i + 1;
            assert(out@ =~= opened + items_text(t.subrange(0, i as int), layout, ind));
        }
        assert(t.subrange(0, items@.len() as int) =~= t);
        write_list_close(out, layout, ind, true);
        assert(out@ =~= old(out)@ + list_text(t, layout, ind, true));
    }

    fn write_format_string(
        &self,
        strings: &Vec<String>,
        expressions: &Vec<Expression>,
        ind: usize,
        out: &mut String,
    )
        requires
            lines_fit(self.b()),
        ensures
            final(out)@ == old(out)@ + format_text(self.b(), strings@, expressions@, ind),
        decreases expressions, 0nat,
    {
        let ghost b = self.b();
        if strings.len() > 0 {
            out.append(strings[0].as_str());
        } else {
            assert(out@ =~= out@ + Seq::<char>::empty());
        }
        assert(expressions@.subrange(0, 0) =~= Seq::<Expression>::empty());
        let mut i: usize = 0;
        while i < expressions.len()
            invariant
                lines_fit(b),
                b == self.b(),
                i <= expressions@.len(),
                out@ == old(out)@ + format_text(b, strings@, expressions@.subrange(0, i as int), ind),
            decreases expressions@.len() - i,
        {
            proof {
                lemma_format_step(b, strings@, expressions@, ind, i as int);
            }
            out.append("${");
            self.write_expression(&expressions[i], ind, out);
            out.append("}");
            if i + 1 < strings.len() {
                out.append(strings[i + 1].as_str());
            } else {
                assert(out@ =~= out@ + Seq::<char>::empty());
            }
            i = i + 1;
            assert(out@ =~= old(out)@ + format_text(b, strings@, expressions@.subrange(0, i as int), ind));
        }
        assert(expressions@.subrange(0, expressions@.len() as int) =~= expressions@);
    }

    #[verifier::rlimit(60)]
    fn write_expression(&self, e: &Expression, ind: usize, out: &mut String)
        requires
            lines_fit(self.b()),
        ensures
            final(out)@ == old(out)@ + expr_text(self.b(), *e, ind),
        decreases e, 0nat,
    {
        match &e.expr {
            Expr::Assignment { identifier, expression } => {
                let mut done = false;
                if let Expr::Binary { operator, left, right } = &expression.expr {
                    if let Expr::Variable { name } = &left.expr {
                        if let Some(compound) = AssignmentOperator::from_binary(operator) {
                            if same_text(name, identifier) {
                                out.append(identifier);
                                out.append(" ");
                                out.append(compound.text());
                                out.append(" ");
                                self.write_expression(right, ind, out);
                                done = true;
                            }
                        }
                    }
                }
                if !done {
                    out.append(identifier);
                    out.append(" = ");
                    self.write_expression(expression, ind, out);
                }
                assert(out@ =~= old(out)@ + expr_text(self.b(), *e, ind));
            },
            Expr::Binary { operator, left, right } => {
                self.write_expression(left, ind, out);
                out.append(" ");
                out.append(operator.text());
                out.append(" ");
                self.write_expression(right, ind, out);
                assert(out@ =~= old(out)@ + expr_text(self.b(), *e, ind));
            },
            Expr::Call { expression, arguments } => {
                self.write_expression(expression, ind, out);
                out.append("(");
                let start = self.line(&expression.span);
                self.write_expressions(arguments, start, ind, false, out);
                out.append(")");
                assert(out@ =~= old(out)@ + expr_text(self.b(), *e, ind));
            },
            Expr::Comment { expression, text } => {
                self.write_expression(expression, ind, out);
                out.append(" // ");
                write_comment_body(out, text);
                assert(out@ =~= old(out)@ + expr_text(self.b(), *e, ind));
            },
            Expr::Dictionary { items } => {
                out.append("{");
                let start = self.line(&e.span);
                self.write_entries(items, start, ind, out);
                out.append("}");
                assert(out@ =~= old(out)@ + expr_text(self.b(), *e, ind));
            },
            Expr::FormatString { strings, expressions } => {
                out.append("'");
                self.write_format_string(strings, expressions, ind, out);
                out.append("'");
                assert(out@ =~= old(out)@ + expr_text(self.b(), *e, ind));
            },
            Expr::Function { parameters, body, .. } => {
                out.append("(");
                let start = self.line(&e.span);
                self.write_parameters(parameters, start, ind, out);
                match &body.stmt {
                    Stmt::Return { expression: Some(value) } => {
                        out.append(") => ");
                        self.write_expression(value, ind, out);
                    },
                    _ => {
                        out.append(") ->\n");
                        self.write_statement(body, ind, false, out);
                    },
                }
                assert(out@ =~= old(out)@ + expr_text(self.b(), *e, ind));
            },
            Expr::Group { expression } => {
                self.write_group(expression, ind, out);
                assert(out@ =~= old(out)@ + expr_text(self.b(), *e, ind));
            },
            Expr::Index { expression, index } => {
                self.write_expression(expression, ind, out);
                out.append("[");
                self.write_expression(index, ind, out);
                out.append("]");
                assert(out@ =~= old(out)@ + expr_text(self.b(), *e, ind));
            },
            Expr::IndexAssignment { expression, index, value, assignment_operator } => {
                self.write_expression(expression, ind, out);
                out.append("[");
                self.write_expression(index, ind, out);
                out.append("] ");
                match assignment_operator {
                    Some(operator) => out.append(operator.text()),
                    None => out.append("="),
                }
                out.append(" ");
                self.write_expression(value, ind, out);
                assert(out@ =~= old(out)@ + expr_text(self.b(), *e, ind));
            },
            Expr::List { items } => {
                out.append("[");
                let start = self.line(&e.span);
                self.write_expressions(items, start, ind, false, out);
                out.append("]");
                assert(out@ =~= old(out)@ + expr_text(self.b(), *e, ind));
            },
            Expr::Literal { type_, value } => {
                write_literal(out, *type_, value);
                assert(out@ =~= old(out)@ + expr_text(self.b(), *e, ind));
            },
            Expr::ModuleAccess { module, item } => {
                out.append(module);
                out.append("::");
                out.append(item);
                assert(out@ =~= old(out)@ + expr_text(self.b(), *e, ind));
            },
            Expr::Unary { operator, expression } => {
                out.append(operator.text());
                self.write_expression(expression, ind, out);
                assert(out@ =~= old(out)@ + expr_text(self.b(), *e, ind));
            },
            Expr::Variable { name } => {
                out.append(name);
                assert(out@ =~= old(out)@ + expr_text(self.b(), *e, ind));
            },
        }
    }

    fn write_inline(&self, s: &Statement, ind: usize, trailing: bool, out: &mut String)
        requires
            lines_fit(self.b()),
        ensures
            final(out)@ == old(out)@ + inline_text(self.b(), *s, ind, trailing),
        decreases s, 3nat,
    {
        match &s.stmt {
            Stmt::Block { body } => {
                if body.len() > 1 {
                    out.append("\n");
                    self.write_statement(s, ind, true, out);
                } else if body.len() == 1 {
                    out.append(" ");
                    self.write_statement(&body[0], ind, false, out);
                    write_newline_if(out, trailing);
                } else {
                    out.append(" ");
                    write_newline_if(out, trailing);
                }
            },
            _ => {
                out.append(" ");
                self.write_statement(s, ind, false, out);
                write_newline_if(out, trailing);
            },
        }
        assert(out@ =~= old(out)@ + inline_text(self.b(), *s, ind, trailing));
    }

    fn write_block(&self, body: &Vec<Statement>, ind: usize, out: &mut String)
        requires
            lines_fit(self.b()),
        ensures
            final(out)@ == old(out)@ + block_text(self.b(), body@, ind),
        decreases body, 1nat,
    {
        let ghost b = self.b();
        let n = body.len();
        if n == 0 {
            assert(out@ =~= old(out)@ + block_text(b, body@, ind));
            return ;
        }
        let inner = next_level(ind);
        assert(body@.subrange(0, 0) =~= Seq::<Statement>::empty());
        let mut i: usize = 0;
        while i + 1 < n
            invariant
                lines_fit(b),
                b == self.b(),
                n == body@.len(),
                n > 0,
                i < n,
                inner == deeper(ind),
                out@ == old(out)@ + lines_text(b, body@.subrange(0, i as int), ind),
            decreases n - i,
        {
            proof {
                lemma_lines_step(b, body@, ind, i as int);
            }
            write_indent(out, inner);
            self.write_statement(&body[i], inner, true, out);
            i = i + 1;
            assert(out@ =~= old(out)@ + lines_text(b, body@.subrange(0, i as int), ind));
        }
        write_indent(out, inner);
        self.write_statement(&body[n - 1], inner, false, out);
        assert(out@ =~= old(out)@ + block_text(b, body@, ind));
    }

    fn write_declaration(&self, s: &Statement, ind: usize, newline: bool, out: &mut String)
        requires
            lines_fit(self.b()),
            s.stmt is Declaration,
        ensures
            final(out)@ == old(out)@ + stmt_text(self.b(), *s, ind, newline),
        decreases s, 1nat,
    {
        match &s.stmt {
            Stmt::Declaration { identifier, expression, .. } => {
                out.append("let ");
                write_identifier(out, identifier);
                out.append(" = ");
                match expression {
                    Some(value) => self.write_expression(value, ind, out),
                    None => {
                        assert(out@ =~= out@ + Seq::<char>::empty());
                    },
                }
                write_newline_if(out, newline);
                assert(out@ =~= old(out)@ + stmt_text(self.b(), *s, ind, newline));
            },
            _ => {},
        }
    }

    #[verifier::spinoff_prover]
    #[verifier::rlimit(40)]
    fn write_if(&self, s: &Statement, ind: usize, newline: bool, out: &mut String)
        requires
            lines_fit(self.b()),
            s.stmt is If,
        ensures
            final(out)@ == old(out)@ + stmt_text(self.b(), *s, ind, newline),
        decreases s, 1nat,
    {
        match &s.stmt {
            Stmt::If { condition, then, otherwise } => {
                out.append("if ");
                self.write_group(condition, ind, out);
                self.write_inline(then, ind, false, out);
                match otherwise {
                    Some(other) => {
                        out.append("\n");
                        write_indent(out, ind);
                        out.append("else");
                        self.write_inline(other, ind, false, out);
                    },
                    None => {
                        assert(out@ =~= out@ + Seq::<char>::empty());
                    },
                }
                write_newline_if(out, newline);
                assert(out@ =~= old(out)@ + stmt_text(self.b(), *s, ind, newline));
            },
            _ => {},
        }
    }

    fn write_import(&self, s: &Statement, ind: usize, newline: bool, out: &mut String)
        requires
            lines_fit(self.b()),
            s.stmt is Import,
        ensures
            final(out)@ == old(out)@ + stmt_text(self.b(), *s, ind, newline),
        decreases s, 1nat,
    {
        match &s.stmt {
            Stmt::Import { module, items } => {
                out.append("from ");
                out.append(module);
                out.append(" import {");
                let start = self.line(&s.span);
                self.write_import_items(items, start, ind, out);
                out.append("}");
                write_newline_if(out, newline);
                assert(out@ =~= old(out)@ + stmt_text(self.b(), *s, ind, newline));
            },
            _ => {},
        }
    }

    fn write_return(&self, s: &Statement, ind: usize, newline: bool, out: &mut String)
        requires
            lines_fit(self.b()),
            s.stmt is Return,
        ensures
            final(out)@ == old(out)@ + stmt_text(self.b(), *s, ind, newline),
        decreases s, 1nat,
    {
        match &s.stmt {
            Stmt::Return { expression } => {
                out.append("return ");
                match expression {
                    Some(value) => self.write_expression(value, ind, out),
                    None => {
                        assert(out@ =~= out@ + Seq::<char>::empty());
                    },
                }
                write_newline_if(out, newline);
                assert(out@ =~= old(out)@ + stmt_text(self.b(), *s, ind, newline));
            },
            _ => {},
        }
    }

    fn write_while(&self, s: &Statement, ind: usize, newline: bool, out: &mut String)
        requires
            lines_fit(self.b()),
            s.stmt is While,
        ensures
            final(out)@ == old(out)@ + stmt_text(self.b(), *s, ind, newline),
        decreases s, 1nat,
    {
        match &s.stmt {
            Stmt::While { condition, body } => {
                out.append("while ");
                self.write_group(condition, ind, out);
                self.write_inline(body, ind, false, out);
                write_newline_if(out, newline);
                assert(out@ =~= old(out)@ + stmt_text(self.b(), *s, ind, newline));
            },
            _ => {},
        }
    }

    fn write_comment(&self, s: &Statement, ind: usize, newline: bool, out: &mut String)
        requires
            lines_fit(self.b()),
            s.stmt is Comment,
        ensures
            final(out)@ == old(out)@ + stmt_text(self.b(), *s, ind, newline),
        decreases s, 1nat,
    {
        match &s.stmt {
            Stmt::Comment { text } => {
                out.append("// ");
                write_comment_body(out, text);
                write_newline_if(out, newline);
                assert(out@ =~= old(out)@ + stmt_text(self.b(), *s, ind, newline));
            },
            _ => {},
        }
    }

    fn write_statement(&self, s: &Statement, ind: usize, newline: bool, out: &mut String)
        requires
            lines_fit(self.b()),
        ensures
            final(out)@ == old(out)@ + stmt_text(self.b(), *s, ind, newline),
        decreases s, 2nat,
    {
        match &s.stmt {
            Stmt::Block { body } => {
                self.write_block(body, ind, out);
                assert(out@ =~= old(out)@ + stmt_text(self.b(), *s, ind, newline));
            },
            Stmt::Expression { expression } => {
                self.write_expression(expression, ind, out);
                write_newline_if(out, newline);
                assert(out@ =~= old(out)@ + stmt_text(self.b(), *s, ind, newline));
            },
            Stmt::Declaration { .. } => self.write_declaration(s, ind, newline, out),
            Stmt::If { .. } => self.write_if(s, ind, newline, out),
            Stmt::Import { .. } => self.write_import(s, ind, newline, out),
            Stmt::Return { .. } => self.write_return(s, ind, newline, out),
            Stmt::While { .. } => self.write_while(s, ind, newline, out),
            Stmt::Comment { .. } => self.write_comment(s, ind, newline, out),
        }
    }
}

/// Formats a program: `ast` is the tree that was parsed from `source`.
pub fn format(source: &str, ast: &[Statement]) -> (r: String)
    requires
        lines_fit(bytes_of(source)),
    ensures
        r@ == program_text(bytes_of(source), ast@),
{
    let formatter = Formatter { source };
    let ghost b = bytes_of(source);
    let mut out = String::from_str("");
    proof {
        reveal_strlit("");
    }
    let mut i: usize = 0;
    while i < ast.len()
        invariant
            lines_fit(b),
            b == formatter.b(),
            i <= ast@.len(),
            out@ == statements_text(b, ast@, i as int),
        decreases ast@.len() - i,
    {
        let gap = if i > 0 {
            let previous = formatter.line(&ast[i - 1].span);
            let current = formatter.line(&ast[i].span);
            previous < current && current - previous > 1
        } else {
            false
        };
        write_newline_if(&mut out, gap);
        formatter.write_statement(&ast[i], 0, true, &mut out);
        i = i + 1;
    }
    out
}

// ---------------------------------------------------------------------
// Number literals keep their value
// ---------------------------------------------------------------------

/// Every character is a decimal digit.
pub open spec fn all_digits(v: Seq<char>) -> bool {
    forall|i: int| 0 <= i < v.len() ==> '0' <= #[trigger] v[i] <= '9'
}

/// Every character is `0`.
pub open spec fn all_zeros(v: Seq<char>) -> bool {
    forall|i: int| 0 <= i < v.len() ==> #[trigger] v[i] == '0'
}

/// The number that decimal digits write.
pub open spec fn digits_value(v: Seq<char>) -> nat
    decreases v.len(),
{
    if v.len() == 0 {
        0
    } else {
        digits_value(v.drop_last()) * 10 + (v.last() as nat - '0' as nat) as nat
    }
}

/// Digits written the shortest way: no leading zero, except `0` itself.
pub open spec fn canonical_digits(v: Seq<char>) -> bool {
    &&& v.len() >= 1
    &&& all_digits(v)
    &&& v.len() > 1 ==> v[0] != '0'
}

proof fn lemma_find_char_absent(v: Seq<char>, c: char, i: int)
    requires
        0 <= i <= v.len(),
        forall|j: int| i <= j < v.len() ==> v[j] != c,
    ensures
        find_char(v, c, i) == v.len(),
    decreases v.len() - i,
{
    if i < v.len() {
        lemma_find_char_absent(v, c, i + 1);
    }
}

proof fn lemma_find_char_at(v: Seq<char>, c: char, i: int, p: int)
    requires
        0 <= i <= p < v.len(),
        v[p] == c,
        forall|j: int| i <= j < p ==> v[j] != c,
    ensures
        find_char(v, c, i) == p,
    decreases p - i,
{
    if i < p {
        lemma_find_char_at(v, c, i + 1, p);
    }
}

proof fn lemma_skip_zeros(v: Seq<char>, i: int, end: int)
    requires
        0 <= i <= end <= v.len(),
    ensures
        i <= skip_zeros(v, i, end) <= end,
        forall|j: int| i <= j < skip_zeros(v, i, end) ==> #[trigger] v[j] == '0',
        skip_zeros(v, i, end) < end ==> v[skip_zeros(v, i, end)] != '0',
    decreases end - i,
{
    if i < end && v[i] == '0' {
        lemma_skip_zeros(v, i + 1, end);
    }
}

proof fn lemma_trim_zeros(v: Seq<char>, start: int, end: int)
    requires
        0 <= start <= end <= v.len(),
    ensures
        start <= trim_zeros(v, start, end) <= end,
        forall|j: int| trim_zeros(v, start, end) <= j < end ==> #[trigger] v[j] == '0',
        trim_zeros(v, start, end) > start ==> v[trim_zeros(v, start, end) - 1] != '0',
    decreases end - start,
{
    if end > start && v[end - 1] == '0' {
        lemma_trim_zeros(v, start, end - 1);
    }
}

proof fn lemma_zeros_value(z: Seq<char>)
    requires
        all_zeros(z),
    ensures
        digits_value(z) == 0,
    decreases z.len(),
{
    if z.len() > 0 {
        lemma_zeros_value(z.drop_last());
    }
}

/// Leading zeros do not change the value of digits.
proof fn lemma_leading_zeros_value(z: Seq<char>, t: Seq<char>)
    requires
        all_zeros(z),
    ensures
        digits_value(z + t) == digits_value(t),
    decreases t.len(),
{
    if t.len() == 0 {
        assert(z + t =~= z);
        lemma_zeros_value(z);
    } else {
        assert((z + t).drop_last() =~= z + t.drop_last());
        lemma_leading_zeros_value(z, t.drop_last());
    }
}

/// The whole part of a number as the formatter writes it: canonical
/// digits of the same value, for digits `w` that end before `d`.
proof fn lemma_whole_part(v: Seq<char>, d: int)
    requires
        0 <= d <= v.len(),
        all_digits(v.subrange(0, d)),
    ensures
        ({
            let s = skip_zeros(v, 0, d);
            let whole = if s == d {
                seq!['0']
            } else {
                v.subrange(s, d)
            };
            canonical_digits(whole) && digits_value(whole) == digits_value(v.subrange(0, d))
        }),
{
    lemma_skip_zeros(v, 0, d);
    let s = skip_zeros(v, 0, d);
    let w = v.subrange(0, d);
    assert(w =~= v.subrange(0, s) + v.subrange(s, d));
    assert(all_zeros(v.subrange(0, s)));
    lemma_leading_zeros_value(v.subrange(0, s), v.subrange(s, d));
    if s == d {
        assert(v.subrange(s, d) =~= Seq::<char>::empty());
        assert(seq!['0'].drop_last() =~= Seq::<char>::empty());
    } else {
        assert(v.subrange(s, d)[0] == v[s]);
        assert forall|i: int| 0 <= i < v.subrange(s, d).len() implies '0' <= #[trigger] v.subrange(
            s,
            d,
        )[i] <= '9' by {
            assert(v.subrange(s, d)[i] == w[s + i]);
        }
    }
}

/// A number literal of digits keeps its value when it is formatted: the
/// formatter writes the same number in its shortest digits (so `10` stays
/// `10`, and `007` becomes `7`).
pub proof fn law_number_text_integer(w: Seq<char>)
    requires
        w.len() >= 1,
        all_digits(w),
    ensures
        canonical_digits(number_text(w)),
        digits_value(number_text(w)) == digits_value(w),
        w[0] != '0' ==> number_text(w) == w,
{
    lemma_find_char_absent(w, '_', 0);
    lemma_find_char_absent(w, '.', 0);
    assert(w.subrange(0, w.len() as int) =~= w);
    lemma_whole_part(w, w.len() as int);
    if w[0] != '0' {
        lemma_skip_zeros(w, 0, w.len() as int);
        assert(w.subrange(0, w.len() as int) =~= w);
    }
}

/// A number literal with a point keeps its value when it is formatted:
/// before the point, the shortest digits of the same whole number; after
/// it, the digits of the fraction with only trailing zeros taken off, and
/// no point at all when nothing else is left.
pub proof fn law_number_text_fraction(w: Seq<char>, f: Seq<char>)
    requires
        all_digits(w),
        all_digits(f),
    ensures
        ({
            let r = number_text(w + seq!['.'] + f);
            let k = find_char(r, '.', 0);
            &&& canonical_digits(r.subrange(0, k))
            &&& digits_value(r.subrange(0, k)) == digits_value(w)
            &&& k == r.len() ==> all_zeros(f)
            &&& k < r.len() ==> {
                let g = r.subrange(k + 1, r.len() as int);
                &&& g.len() >= 1
                &&& g.last() != '0'
                &&& g == f.subrange(0, g.len() as int)
                &&& all_zeros(f.subrange(g.len() as int, f.len() as int))
            }
        }),
{
    let v = w + seq!['.'] + f;
    let d = w.len() as int;
    assert(v[d] == '.');
    assert forall|j: int| 0 <= j < v.len() implies v[j] != '_' by {
        if j < d {
            assert(v[j] == w[j]);
        } else if j > d {
            assert(v[j] == f[j - d - 1]);
        }
    }
    lemma_find_char_absent(v, '_', 0);
    assert forall|j: int| 0 <= j < d implies v[j] != '.' by {
        assert(v[j] == w[j]);
    }
    lemma_find_char_at(v, '.', 0, d);
    assert(v.subrange(0, d) =~= w);
    lemma_whole_part(v, d);
    let s = skip_zeros(v, 0, d);
    let whole = if s == d {
        seq!['0']
    } else {
        v.subrange(s, d)
    };
    lemma_trim_zeros(v, d + 1, v.len() as int);
    let e = trim_zeros(v, d + 1, v.len() as int);
    let r = number_text(v);
    assert forall|j: int| 0 <= j < whole.len() implies whole[j] != '.' by {
        assert('0' <= whole[j] <= '9');
    }
    if e > d + 1 {
        let g = v.subrange(d + 1, e);
        assert(r == whole + seq!['.'] + g);
        assert(r[whole.len() as int] == '.');
        assert forall|j: int| 0 <= j < whole.len() implies r[j] != '.' by {
            assert(r[j] == whole[j]);
        }
        lemma_find_char_at(r, '.', 0, whole.len() as int);
        assert(r.subrange(0, whole.len() as int) =~= whole);
        assert(r.subrange(whole.len() as int + 1, r.len() as int) =~= g);
        assert(g =~= f.subrange(0, g.len() as int));
        assert forall|j: int| g.len() <= j < f.len() implies #[trigger] f[j] == '0' by {
            assert(f[j] == v[d + 1 + j]);
        }
        assert(all_zeros(f.subrange(g.len() as int, f.len() as int)));
        assert(g.last() == v[e - 1]);
    } else {
        assert(r == whole);
        lemma_find_char_absent(r, '.', 0);
        assert(r.subrange(0, r.len() as int) =~= r);
        assert forall|j: int| 0 <= j < f.len() implies #[trigger] f[j] == '0' by {
            assert(f[j] == v[d + 1 + j]);
        }
    }
}

} // verus!

//! Text for the terminal: colours, and the syntax tree drawn as a tree.
use crate::ast::{Expr, Stmt, TokenRef};
use crate::diagnostic::Diagnostic;
use crate::text::{decimal, write_decimal};
use crate::token::push_char;
use crate::tokens::{Token, TokenType};
use vstd::prelude::*;
use vstd::string::{StrSliceExecFns, StringExecFns};

verus! {

/// The text in red.
pub fn red(text: &str) -> (r: String)
    ensures
        r@ == "\u{001b}[31m"@ + text@ + "\u{001b}[0m"@,
{
    let mut out = String::from_str("\u{001b}[31m");
    out.append(text);
    out.append("\u{001b}[0m");
    out
}

/// The text in yellow.
pub fn yellow(text: &str) -> (r: String)
    ensures
        r@ == "\u{001b}[33m"@ + text@ + "\u{001b}[0m"@,
{
    let mut out = String::from_str("\u{001b}[33m");
    out.append(text);
    out.append("\u{001b}[0m");
    out
}

/// The text in bold.
pub fn bold(text: &str) -> (r: String)
    ensures
        r@ == "\u{001b}[1m"@ + text@ + "\u{001b}[0m"@,
{
    let mut out = String::from_str("\u{001b}[1m");
    out.append(text);
    out.append("\u{001b}[0m");
    out
}


// ---------------------------------------------------------------------
// The syntax tree, drawn as a tree
// ---------------------------------------------------------------------

/// The texts joined with ", " between them.
pub open spec fn joined(s: Seq<Seq<char>>) -> Seq<char>
    decreases s.len(),
{
    if s.len() == 0 {
        Seq::empty()
    } else if s.len() == 1 {
        s[0]
    } else {
        joined(s.subrange(0, s.len() - 1)) + ", "@ + s[s.len() - 1]
    }
}

/// The texts of the tokens.
pub open spec fn token_texts<'s>(s: Seq<TokenRef<'s>>) -> Seq<Seq<char>> {
    s.map_values(|t: TokenRef<'s>| t.value@)
}

/// The lines that draw an expression: `p` starts its first line, `r` the
/// lines below it.
pub open spec fn expr_tree(e: Expr, p: Seq<char>, r: Seq<char>) -> Seq<char>
    decreases e, 0nat,
{
    match e {
        Expr::Literal { token, .. } => p + "Literal ("@ + token.value@ + ")\n"@,
        Expr::Group { expression, .. } => p + "Group\n"@ + expr_tree(
            *expression,
            r + "╰─ "@,
            r + "   "@,
        ),
        Expr::Unary { operator, expression } => p + "Unary ("@ + operator.value@ + ")\n"@
            + expr_tree(*expression, r + "╰─ "@, r + "   "@),
        Expr::Binary { operator, left, right } => p + "Binary ("@ + operator.value@ + ")\n"@
            + expr_tree(*left, r + "├─ "@, r + "│  "@) + expr_tree(*right, r + "╰─ "@, r + "   "@),
        Expr::Assignment { identifier, expression } => p + "Assignment ("@ + identifier.value@
            + ")\n"@ + expr_tree(*expression, r + "╰─ "@, r + "   "@),
        Expr::Variable { token } => p + "Variable ("@ + token.value@ + ")\n"@,
        Expr::Call { expression, arguments, .. } => p + "Call\n"@ + r + "├─ Expression\n"@
            + expr_tree(*expression, r + "│  ╰─ "@, r + "│     "@) + r + "╰─ Arguments\n"@
            + exprs_tree(arguments@, r + "   ├─ "@, r + "   │  "@),
        Expr::Function { body, parameters, name, .. } => p + match name {
            Some(n) => "Function "@ + n@,
            None => "Function "@,
        } + "("@ + joined(token_texts(parameters@)) + ")\n"@ + stmt_tree(
            *body,
            r + "╰─ "@,
            r + "   "@,
        ),
        Expr::Comment { token, expression } => p + "Comment ("@ + token.value@ + ")\n"@
            + expr_tree(*expression, r + "╰─ "@, r + "   "@),
    }
}

/// The lines that draw each expression, all with the same prefixes.
pub open spec fn exprs_tree(s: Seq<Expr>, p: Seq<char>, r: Seq<char>) -> Seq<char>
    decreases s, 0nat,
{
    if s.len() == 0 {
        Seq::empty()
    } else {
        exprs_tree(s.subrange(0, s.len() - 1), p, r) + expr_tree(s[s.len() - 1], p, r)
    }
}

/// The lines that draw a statement.
pub open spec fn stmt_tree(s: Stmt, p: Seq<char>, r: Seq<char>) -> Seq<char>
    decreases s, 0nat,
{
    match s {
        Stmt::Declaration { identifier, expression, .. } => p + "Declaration ("@
            + identifier.value@ + ")\n"@ + match expression {
            Some(e) => expr_tree(e, r + "╰─ "@, r + "   "@),
            None => Seq::empty(),
        },
        Stmt::If { condition, then, otherwise, .. } => p + "If\n"@ + r + "├─ Condition\n"@
            + expr_tree(condition, r + "│  ╰─ "@, r + "│     "@) + r + "├─ Then\n"@ + stmt_tree(
            *then,
            r + "│  ╰─ "@,
            r + "│     "@,
        ) + match otherwise {
            Some(o) => r + "╰─ Else\n"@ + stmt_tree(*o, r + "   ╰─ "@, r + "      "@),
            None => Seq::empty(),
        },
        Stmt::While { condition, body, .. } => p + "While\n"@ + r + "├─ Condition\n"@
            + expr_tree(condition, r + "│  ╰─ "@, r + "│     "@) + r + "╰─ Body\n"@ + stmt_tree(
            *body,
            r + "   ╰─ "@,
            r + "      "@,
        ),
        Stmt::Return { expression, .. } => p + "Return\n"@ + match expression {
            Some(e) => expr_tree(e, r + "╰─ "@, r + "   "@),
            None => Seq::empty(),
        },
        Stmt::Block { body } => p + "Block\n"@ + if body@.len() == 0 {
            Seq::empty()
        } else {
            stmts_tree(body@.subrange(0, body@.len() - 1), r + "├─ "@, r + "│  "@) + stmt_tree(
                body@[body@.len() - 1],
                r + "╰─ "@,
                r + "   "@,
            )
        },
        Stmt::Expression { expression } => p + "Expression\n"@ + expr_tree(
            expression,
            r + "╰─ "@,
            r + "   "@,
        ),
        Stmt::Comment { token } => p + "Comment ("@ + token.value@ + ")\n"@,
    }
}

/// The lines that draw each statement, all with the same prefixes.
pub open spec fn stmts_tree(s: Seq<Stmt>, p: Seq<char>, r: Seq<char>) -> Seq<char>
    decreases s, 0nat,
{
    if s.len() == 0 {
        Seq::empty()
    } else {
        stmts_tree(s.subrange(0, s.len() - 1), p, r) + stmt_tree(s[s.len() - 1], p, r)
    }
}

/// The drawing of a whole program.
pub open spec fn ast_text(s: Seq<Stmt>) -> Seq<char> {
    "  ╭─[Abstract Syntax Tree]\n"@ + stmts_tree(s, "  ├─ "@, "  │  "@) + "──╯\n"@
}

/// `a` then `b`, as a new string.
fn concat(a: &str, b: &str) -> (r: String)
    ensures
        r@ == a@ + b@,
{
    let mut out = String::from_str(a);
    out.append(b);
    out
}

/// Appends the line `a` `b` (`b` ends it).
fn push_line(out: &mut String, a: &str, b: &str)
    ensures
        final(out)@ == old(out)@ + a@ + b@,
{
    out.append(a);
    out.append(b);
}

/// Appends the line `a` `b` `c`, closed by a bracket.
fn push_named(out: &mut String, a: &str, b: &str, c: &str)
    ensures
        final(out)@ == old(out)@ + a@ + b@ + c@ + ")\n"@,
{
    out.append(a);
    out.append(b);
    out.append(c);
    out.append(")\n");
}

fn write_parameters<'s>(parameters: &Vec<TokenRef<'s>>, out: &mut String)
    ensures
        final(out)@ == old(out)@ + joined(token_texts(parameters@)),
{
    let ghost t = token_texts(parameters@);
    let mut i: usize = 0;
    while i < parameters.len()
        invariant
            i <= parameters@.len(),
            t == token_texts(parameters@),
            out@ == old(out)@ + joined(t.subrange(0, i as int)),
        decreases parameters@.len() - i,
    {
        if i > 0 {
            out.append(", ");
        }
        out.append(parameters[i].value);
        i = i + 1;
        assert(t.subrange(0, i as int).subrange(0, i - 1) =~= t.subrange(0, i - 1));
        assert(out@ =~= old(out)@ + joined(t.subrange(0, i as int)));
    }
    assert(t.subrange(0, parameters@.len() as int) =~= t);
}

/// Appends the drawing of an expression.
pub fn print_expression(expression: &Expr, prefix: &str, prefix_raw: &str, out: &mut String)
    ensures
        final(out)@ == old(out)@ + expr_tree(*expression, prefix@, prefix_raw@),
    decreases expression, 0nat,
{
    let r = prefix_raw;
    let ghost whole = *expression;
    match expression {
        Expr::Literal { token, .. } => {
            push_named(out, prefix, "Literal (", token.value);
            assert(out@ =~= old(out)@ + expr_tree(whole, prefix@, prefix_raw@));
        },
        Expr::Group { expression, .. } => {
            push_line(out, prefix, "Group\n");
            print_expression(expression, concat(r, "╰─ ").as_str(), concat(r, "   ").as_str(), out);
            assert(out@ =~= old(out)@ + expr_tree(whole, prefix@, prefix_raw@));
        },
        Expr::Unary { operator, expression } => {
            push_named(out, prefix, "Unary (", operator.value);
            print_expression(expression, concat(r, "╰─ ").as_str(), concat(r, "   ").as_str(), out);
            assert(out@ =~= old(out)@ + expr_tree(whole, prefix@, prefix_raw@));
        },
        Expr::Binary { operator, left, right } => {
            push_named(out, prefix, "Binary (", operator.value);
            print_expression(left, concat(r, "├─ ").as_str(), concat(r, "│  ").as_str(), out);
            print_expression(right, concat(r, "╰─ ").as_str(), concat(r, "   ").as_str(), out);
            assert(out@ =~= old(out)@ + expr_tree(whole, prefix@, prefix_raw@));
        },
        Expr::Assignment { identifier, expression } => {
            push_named(out, prefix, "Assignment (", identifier.value);
            print_expression(expression, concat(r, "╰─ ").as_str(), concat(r, "   ").as_str(), out);
            assert(out@ =~= old(out)@ + expr_tree(whole, prefix@, prefix_raw@));
        },
        Expr::Variable { token } => {
            push_named(out, prefix, "Variable (", token.value);
            assert(out@ =~= old(out)@ + expr_tree(whole, prefix@, prefix_raw@));
        },
        Expr::Call { expression, arguments, .. } => {
            push_line(out, prefix, "Call\n");
            push_line(out, r, "├─ Expression\n");
            print_expression(expression, concat(r, "│  ╰─ ").as_str(), concat(r, "│     ").as_str(), out);
            push_line(out, r, "╰─ Arguments\n");
            print_expressions(arguments, concat(r, "   ├─ ").as_str(), concat(r, "   │  ").as_str(), out);
            assert(out@ =~= old(out)@ + expr_tree(whole, prefix@, prefix_raw@));
        },
        Expr::Function { body, parameters, name, .. } => {
            out.append(prefix);
            out.append("Function ");
            match name {
                Some(n) => out.append(n),
                None => {},
            }
            out.append("(");
            write_parameters(parameters, out);
            out.append(")\n");
            print_statement(body, concat(r, "╰─ ").as_str(), concat(r, "   ").as_str(), out);
            assert(out@ =~= old(out)@ + expr_tree(whole, prefix@, prefix_raw@));
        },
        Expr::Comment { token, expression } => {
            push_named(out, prefix, "Comment (", token.value);
            print_expression(expression, concat(r, "╰─ ").as_str(), concat(r, "   ").as_str(), out);
            assert(out@ =~= old(out)@ + expr_tree(whole, prefix@, prefix_raw@));
        },
    }
    assert(out@ =~= old(out)@ + expr_tree(*expression, prefix@, prefix_raw@));
}

/// Appends the drawing of each expression, all with the same prefixes.
fn print_expressions(items: &Vec<Expr>, prefix: &str, prefix_raw: &str, out: &mut String)
    ensures
        final(out)@ == old(out)@ + exprs_tree(items@, prefix@, prefix_raw@),
    decreases items, 0nat,
{
    let mut i: usize = 0;
    while i < items.len()
        invariant
            i <= items@.len(),
            out@ == old(out)@ + exprs_tree(items@.subrange(0, i as int), prefix@, prefix_raw@),
        decreases items@.len() - i,
    {
        print_expression(&items[i], prefix, prefix_raw, out);
        i = i + 1;
        assert(items@.subrange(0, i as int).subrange(0, i - 1) =~= items@.subrange(0, i - 1));
        assert(out@ =~= old(out)@ + exprs_tree(items@.subrange(0, i as int), prefix@, prefix_raw@));
    }
    assert(items@.subrange(0, items@.len() as int) =~= items@);
}

/// Appends the drawing of a statement.
pub fn print_statement(statement: &Stmt, prefix: &str, prefix_raw: &str, out: &mut String)
    ensures
        final(out)@ == old(out)@ + stmt_tree(*statement, prefix@, prefix_raw@),
    decreases statement, 0nat,
{
    let r = prefix_raw;
    let ghost whole = *statement;
    match statement {
        Stmt::Declaration { identifier, expression, .. } => {
            push_named(out, prefix, "Declaration (", identifier.value);
            match expression {
                Some(e) => print_expression(e, concat(r, "╰─ ").as_str(), concat(r, "   ").as_str(), out),
                None => {},
            }
            assert(out@ =~= old(out)@ + stmt_tree(whole, prefix@, prefix_raw@));
        },
        Stmt::If { condition, then, otherwise, .. } => {
            push_line(out, prefix, "If\n");
            push_line(out, r, "├─ Condition\n");
            print_expression(condition, concat(r, "│  ╰─ ").as_str(), concat(r, "│     ").as_str(), out);
            push_line(out, r, "├─ Then\n");
            print_statement(then, concat(r, "│  ╰─ ").as_str(), concat(r, "│     ").as_str(), out);
            match otherwise {
                Some(o) => {
                    push_line(out, r, "╰─ Else\n");
                    print_statement(o, concat(r, "   ╰─ ").as_str(), concat(r, "      ").as_str(), out);
                },
                None => {},
            }
            assert(out@ =~= old(out)@ + stmt_tree(whole, prefix@, prefix_raw@));
        },
        Stmt::While { condition, body, .. } => {
            push_line(out, prefix, "While\n");
            push_line(out, r, "├─ Condition\n");
            print_expression(condition, concat(r, "│  ╰─ ").as_str(), concat(r, "│     ").as_str(), out);
            push_line(out, r, "╰─ Body\n");
            print_statement(body, concat(r, "   ╰─ ").as_str(), concat(r, "      ").as_str(), out);
            assert(out@ =~= old(out)@ + stmt_tree(whole, prefix@, prefix_raw@));
        },
        Stmt::Return { expression, .. } => {
            push_line(out, prefix, "Return\n");
            match expression {
                Some(e) => print_expression(e, concat(r, "╰─ ").as_str(), concat(r, "   ").as_str(), out),
                None => {},
            }
            assert(out@ =~= old(out)@ + stmt_tree(whole, prefix@, prefix_raw@));
        },
        Stmt::Block { body } => {
            push_line(out, prefix, "Block\n");
            if body.len() > 0 {
                let ghost before = out@;
                let last = body.len() - 1;
                let inline = concat(r, "├─ ");
                let inline_raw = concat(r, "│  ");
                let mut i: usize = 0;
                while i < last
                    invariant
                        i <= last,
                        last == body@.len() - 1,
                        out@ == before + stmts_tree(body@.subrange(0, i as int), inline@, inline_raw@),
                        inline@ == r@ + "├─ "@,
                        inline_raw@ == r@ + "│  "@,
                        statement matches Stmt::Block { body: b } && b == body,
                    decreases last - i,
                {
                    assert(decreases_to!(*statement => body@[i as int]));
                    print_statement(&body[i], inline.as_str(), inline_raw.as_str(), out);
                    i = i + 1;
                    assert(body@.subrange(0, i as int).subrange(0, i - 1) =~= body@.subrange(0, i - 1));
                    assert(out@ =~= before + stmts_tree(body@.subrange(0, i as int), inline@, inline_raw@));
                }
                assert(decreases_to!(*statement => body@[last as int]));
                print_statement(&body[last], concat(r, "╰─ ").as_str(), concat(r, "   ").as_str(), out);
            }
            assert(out@ =~= old(out)@ + stmt_tree(whole, prefix@, prefix_raw@));
        },
        Stmt::Expression { expression } => {
            push_line(out, prefix, "Expression\n");
            print_expression(expression, concat(r, "╰─ ").as_str(), concat(r, "   ").as_str(), out);
            assert(out@ =~= old(out)@ + stmt_tree(whole, prefix@, prefix_raw@));
        },
        Stmt::Comment { token } => {
            push_named(out, prefix, "Comment (", token.value);
            assert(out@ =~= old(out)@ + stmt_tree(whole, prefix@, prefix_raw@));
        },
    }
    assert(out@ =~= old(out)@ + stmt_tree(*statement, prefix@, prefix_raw@));
}

/// Draws the syntax tree of a program.
pub fn ast(statements: &Vec<Stmt>) -> (r: String)
    ensures
        r@ == ast_text(statements@),
{
    let mut out = String::from_str("  ╭─[Abstract Syntax Tree]\n");
    let ghost before = out@;
    let mut i: usize = 0;
    while i < statements.len()
        invariant
            i <= statements@.len(),
            before == "  ╭─[Abstract Syntax Tree]\n"@,
            out@ == before + stmts_tree(statements@.subrange(0, i as int), "  ├─ "@, "  │  "@),
        decreases statements@.len() - i,
    {
        print_statement(&statements[i], "  ├─ ", "  │  ", &mut out);
        i = i + 1;
        assert(statements@.subrange(0, i as int).subrange(0, i - 1) =~= statements@.subrange(0, i - 1));
        assert(out@ =~= before + stmts_tree(statements@.subrange(0, i as int), "  ├─ "@, "  │  "@));
    }
    assert(statements@.subrange(0, statements@.len() as int) =~= statements@);
    out.append("──╯\n");
    out
}

// ---------------------------------------------------------------------
// The tokens, one to a line
// ---------------------------------------------------------------------

/// The name of a kind of token.
pub open spec fn kind_name(t: TokenType) -> Seq<char> {
    match t {
        TokenType::LeftParen => "LeftParen"@,
        TokenType::RightParen => "RightParen"@,
        TokenType::LeftBrace => "LeftBrace"@,
        TokenType::RightBrace => "RightBrace"@,
        TokenType::Comma => "Comma"@,
        TokenType::Dot => "Dot"@,
        TokenType::Colon => "Colon"@,
        TokenType::RightArrow => "RightArrow"@,
        TokenType::FatRightArrow => "FatRightArrow"@,
        TokenType::Minus => "Minus"@,
        TokenType::Plus => "Plus"@,
        TokenType::Slash => "Slash"@,
        TokenType::Star => "Star"@,
        TokenType::Bang => "Bang"@,
        TokenType::And => "And"@,
        TokenType::Or => "Or"@,
        TokenType::QuestionQuestion => "QuestionQuestion"@,
        TokenType::BangEqual => "BangEqual"@,
        TokenType::Equal => "Equal"@,
        TokenType::EqualEqual => "EqualEqual"@,
        TokenType::Greater => "Greater"@,
        TokenType::GreaterEqual => "GreaterEqual"@,
        TokenType::Less => "Less"@,
        TokenType::LessEqual => "LessEqual"@,
        TokenType::PlusEqual => "PlusEqual"@,
        TokenType::MinusEqual => "MinusEqual"@,
        TokenType::StarEqual => "StarEqual"@,
        TokenType::SlashEqual => "SlashEqual"@,
        TokenType::Identifier => "Identifier"@,
        TokenType::String => "String"@,
        TokenType::Number => "Number"@,
        TokenType::True => "True"@,
        TokenType::False => "False"@,
        TokenType::Null => "Null"@,
        TokenType::Else => "Else"@,
        TokenType::Fun => "Fun"@,
        TokenType::If => "If"@,
        TokenType::Let => "Let"@,
        TokenType::Return => "Return"@,
        TokenType::While => "While"@,
        TokenType::Comment => "Comment"@,
        TokenType::Whitespace => "Whitespace"@,
        TokenType::EndOfLine => "EndOfLine"@,
        TokenType::EndOfFile => "EndOfFile"@,
        TokenType::Unknown => "Unknown"@,
    }
}

fn kind_text(t: TokenType) -> (r: &'static str)
    ensures
        r@ == kind_name(t),
{
    match t {
        TokenType::LeftParen => "LeftParen",
        TokenType::RightParen => "RightParen",
        TokenType::LeftBrace => "LeftBrace",
        TokenType::RightBrace => "RightBrace",
        TokenType::Comma => "Comma",
        TokenType::Dot => "Dot",
        TokenType::Colon => "Colon",
        TokenType::RightArrow => "RightArrow",
        TokenType::FatRightArrow => "FatRightArrow",
        TokenType::Minus => "Minus",
        TokenType::Plus => "Plus",
        TokenType::Slash => "Slash",
        TokenType::Star => "Star",
        TokenType::Bang => "Bang",
        TokenType::And => "And",
        TokenType::Or => "Or",
        TokenType::QuestionQuestion => "QuestionQuestion",
        TokenType::BangEqual => "BangEqual",
        TokenType::Equal => "Equal",
        TokenType::EqualEqual => "EqualEqual",
        TokenType::Greater => "Greater",
        TokenType::GreaterEqual => "GreaterEqual",
        TokenType::Less => "Less",
        TokenType::LessEqual => "LessEqual",
        TokenType::PlusEqual => "PlusEqual",
        TokenType::MinusEqual => "MinusEqual",
        TokenType::StarEqual => "StarEqual",
        TokenType::SlashEqual => "SlashEqual",
        TokenType::Identifier => "Identifier",
        TokenType::String => "String",
        TokenType::Number => "Number",
        TokenType::True => "True",
        TokenType::False => "False",
        TokenType::Null => "Null",
        TokenType::Else => "Else",
        TokenType::Fun => "Fun",
        TokenType::If => "If",
        TokenType::Let => "Let",
        TokenType::Return => "Return",
        TokenType::While => "While",
        TokenType::Comment => "Comment",
        TokenType::Whitespace => "Whitespace",
        TokenType::EndOfLine => "EndOfLine",
        TokenType::EndOfFile => "EndOfFile",
        TokenType::Unknown => "Unknown",
    }
}

/// A number right-aligned in `width` columns.
pub open spec fn right_aligned(n: nat, width: nat) -> Seq<char> {
    let d = decimal(n);
    if d.len() < width {
        Seq::new((width - d.len()) as nat, |i: int| ' ') + d
    } else {
        d
    }
}

/// The line that lists the token at `i`: its line number, unless the token
/// before is on the same line, then its kind and its text (none for the
/// end of a line).
pub open spec fn token_line(ts: Seq<Token>, i: int) -> Seq<char> {
    let t = ts[i];
    let previous = if i == 0 {
        0
    } else {
        ts[i - 1].line
    };
    (if t.line == previous {
        "     │ "@
    } else {
        right_aligned(t.line as nat, 4) + " │ "@
    }) + kind_name(t.ttype) + " ("@ + (if t.ttype == TokenType::EndOfLine {
        Seq::empty()
    } else {
        t.value@
    }) + ")\n"@
}

pub open spec fn token_lines(ts: Seq<Token>, n: int) -> Seq<char>
    decreases n,
{
    if n <= 0 {
        Seq::empty()
    } else {
        token_lines(ts, n - 1) + token_line(ts, n - 1)
    }
}

/// The listing of the tokens.
pub open spec fn tokens_text(ts: Seq<Token>) -> Seq<char> {
    "     ╭─[Tokens]\n"@ + token_lines(ts, ts.len() as int) + "─────╯\n"@
}

fn write_right_aligned(out: &mut String, n: usize, width: usize)
    ensures
        final(out)@ == old(out)@ + right_aligned(n as nat, width as nat),
{
    let mut digits = String::from_str("");
    proof {
        reveal_strlit("");
    }
    write_decimal(&mut digits, n);
    let length = digits.as_str().unicode_len();
    if length < width {
        let mut i: usize = 0;
        while i < width - length
            invariant
                length == decimal(n as nat).len(),
                length < width,
                i <= width - length,
                out@ == old(out)@ + Seq::new(i as nat, |k: int| ' '),
            decreases width - length - i,
        {
            push_char(out, ' ');
            i = i + 1;
            assert(out@ =~= old(out)@ + Seq::new(i as nat, |k: int| ' '));
        }
    }
    out.append(digits.as_str());
    assert(out@ =~= old(out)@ + right_aligned(n as nat, width as nat));
}

/// Appends the line that lists the token at `i`.
fn write_token_line(out: &mut String, list: &[Token], i: usize, line: u16)
    requires
        i < list@.len(),
        line == if i == 0 {
            0
        } else {
            list@[i - 1].line
        },
    ensures
        final(out)@ == old(out)@ + token_line(list@, i as int),
{
    let token = &list[i];
    if token.line == line {
        out.append("     │ ");
    } else {
        write_right_aligned(out, token.line as usize, 4);
        out.append(" │ ");
    }
    out.append(kind_text(token.ttype));
    out.append(" (");
    if token.ttype != TokenType::EndOfLine {
        out.append(token.value);
    }
    out.append(")\n");
    assert(out@ =~= old(out)@ + token_line(list@, i as int));
}

/// Lists the tokens, one to a line.
pub fn tokens(list: &[Token]) -> (r: String)
    ensures
        r@ == tokens_text(list@),
{
    let mut out = String::from_str("     ╭─[Tokens]\n");
    let ghost before = out@;
    let mut line: u16 = 0;
    let mut i: usize = 0;
    while i < list.len()
        invariant
            i <= list@.len(),
            before == "     ╭─[Tokens]\n"@,
            out@ == before + token_lines(list@, i as int),
            line == if i == 0 {
                0
            } else {
                list@[i - 1].line
            },
        decreases list@.len() - i,
    {
        write_token_line(&mut out, list, i, line);
        line = list[i].line;
        i = i + 1;
        assert(out@ =~= before + token_lines(list@, i as int));
    }
    out.append("─────╯\n");
    out
}

// ---------------------------------------------------------------------
// Errors and warnings, with the lines they are about
// ---------------------------------------------------------------------

/// The text split at each newline; the last piece is what follows the last
/// newline.
pub open spec fn pieces(c: Seq<char>) -> Seq<Seq<char>>
    decreases c.len(),
{
    if c.len() == 0 {
        seq![Seq::empty()]
    } else {
        let rest = pieces(c.drop_last());
        if c.last() == '\n' {
            rest.push(Seq::empty())
        } else {
            rest.update(rest.len() - 1, rest.last().push(c.last()))
        }
    }
}

/// A line without the carriage return that ends it.
pub open spec fn without_return(line: Seq<char>) -> Seq<char> {
    if line.len() > 0 && line.last() == '\r' {
        line.drop_last()
    } else {
        line
    }
}

/// The lines of a text: split at newlines, each without a carriage return
/// at its end, and no empty line after a final newline.
pub open spec fn lines_of(c: Seq<char>) -> Seq<Seq<char>> {
    if c.len() == 0 {
        Seq::empty()
    } else {
        let p = pieces(c);
        let q = if c.last() == '\n' {
            p.drop_last()
        } else {
            p
        };
        q.map_values(|l: Seq<char>| without_return(l))
    }
}

proof fn lemma_pieces_len(c: Seq<char>)
    ensures
        pieces(c).len() >= 1,
    decreases c.len(),
{
    if c.len() > 0 {
        lemma_pieces_len(c.drop_last());
    }
}

/// The lines of a text.
fn lines(source: &str) -> (r: Vec<String>)
    ensures
        r@.map_values(|l: String| l@) == lines_of(source@),
{
    let n = source.unicode_len();
    let ghost c = source@;
    let mut done: Vec<String> = Vec::new();
    let mut current = String::from_str("");
    proof {
        reveal_strlit("");
    }
    let mut i: usize = 0;
    assert(c.subrange(0, 0) =~= Seq::<char>::empty());
    assert(current@ =~= Seq::<char>::empty());
    assert(done@.map_values(|l: String| l@).push(current@) =~= seq![Seq::<char>::empty()]);
    while i < n
        invariant
            n == c.len(),
            c == source@,
            i <= n,
            done@.len() + (if i > 0 && c[i - 1] != '\n' {
                1int
            } else {
                0int
            }) <= i,
            done@.map_values(|l: String| l@).push(current@) == pieces(c.subrange(0, i as int)),
        decreases n - i,
    {
        let ch = source.get_char(i);
        proof {
            assert(c.subrange(0, i + 1).drop_last() =~= c.subrange(0, i as int));
            assert(c.subrange(0, i + 1).last() == ch);
            lemma_pieces_len(c.subrange(0, i as int));
        }
        if ch == '\n' {
            let ghost before = done@.map_values(|l: String| l@).push(current@);
            done.push(current);
            current = String::from_str("");
            proof {
                reveal_strlit("");
            }
            assert(current@ =~= Seq::<char>::empty());
            assert(pieces(c.subrange(0, i + 1)) == before.push(Seq::empty()));
            assert(done@.map_values(|l: String| l@).push(current@) =~= before.push(Seq::empty()));
        } else {
            let ghost before = done@.map_values(|l: String| l@).push(current@);
            push_char(&mut current, ch);
            assert(done@.map_values(|l: String| l@).push(current@) =~= before.update(
                before.len() - 1,
                before.last().push(ch),
            ));
        }
        i = i + 1;
    }
    assert(c.subrange(0, n as int) =~= c);
    let mut result: Vec<String> = Vec::new();
    let total = if n > 0 && source.get_char(n - 1) == '\n' {
        done.len()
    } else if n > 0 {
        done.len() + 1
    } else {
        0
    };
    let ghost all = done@.map_values(|l: String| l@).push(current@);
    let mut k: usize = 0;
    while k < total
        invariant
            all == pieces(c),
            all.len() == done@.len() + 1,
            total <= done@.len() + 1,
            k <= total,
            all == done@.map_values(|l: String| l@).push(current@),
            result@.map_values(|l: String| l@) == all.subrange(0, k as int).map_values(
                |l: Seq<char>| without_return(l),
            ),
        decreases total - k,
    {
        let line: &String = if k < done.len() {
            &done[k]
        } else {
            &current
        };
        assert(line@ == all[k as int]);
        let length = line.as_str().unicode_len();
        let stripped = if length > 0 && line.as_str().get_char(length - 1) == '\r' {
            let text = String::from_str(line.as_str().substring_char(0, length - 1));
            assert(text@ =~= line@.drop_last());
            text
        } else {
            String::from_str(line.as_str())
        };
        assert(stripped@ == without_return(all[k as int]));
        let ghost before = result@.map_values(|l: String| l@);
        result.push(stripped);
        assert(result@.map_values(|l: String| l@) =~= before.push(stripped@));
        k = k + 1;
        assert(result@.map_values(|l: String| l@) =~= all.subrange(0, k as int).map_values(
            |l: Seq<char>| without_return(l),
        ));
    }
    assert(lines_of(c) =~= all.subrange(0, total as int).map_values(
        |l: Seq<char>| without_return(l),
    ));
    result
}

/// The line `i` of the lines, numbered from one in three columns; nothing
/// past the last line.
pub open spec fn frame_line(ls: Seq<Seq<char>>, i: int) -> Seq<char> {
    if 0 <= i < ls.len() {
        right_aligned((i + 1) as nat, 3) + " │ "@ + ls[i] + "\n"@
    } else {
        Seq::empty()
    }
}

/// The lines `from` to `to`, both included.
pub open spec fn frame_lines(ls: Seq<Seq<char>>, from: int, to: int) -> Seq<char>
    decreases to - from + 1,
{
    if to < from {
        Seq::empty()
    } else {
        frame_lines(ls, from, to - 1) + frame_line(ls, to)
    }
}

/// The frame that shows the lines of the source around a line: the two
/// before it, it, with dots where lines are left out.
pub open spec fn code_frame_text(file: Seq<char>, source: Seq<char>, line: int) -> Seq<char> {
    let ls = lines_of(source);
    "    ╭─["@ + file + "]\n"@ + (if line > 2 {
        "    ·\n"@
    } else {
        "    │\n"@
    }) + frame_lines(ls, if line <= 2 {
        0
    } else {
        line - 2
    }, line) + (if line < ls.len() - 1 {
        "    ·\n"@
    } else {
        Seq::empty()
    }) + "────╯\n"@
}

/// Frames the lines of the source around `line_number`.
pub fn code_frame(file: &str, source: &str, line_number: u16) -> (r: String)
    requires
        line_number < u16::MAX,
        lines_of(source@).len() >= 1,
    ensures
        r@ == code_frame_text(file@, source@, line_number as int),
{
    let ls = lines(source);
    let ghost l = lines_of(source@);
    assert(ls@.len() == l.len());
    let mut out = String::from_str("    ╭─[");
    out.append(file);
    out.append("]\n");
    if line_number > 2 {
        out.append("    ·\n");
    } else {
        out.append("    │\n");
    }
    let start: u16 = if line_number <= 2 {
        0
    } else {
        line_number - 2
    };
    let ghost before = out@;
    let mut i: u16 = start;
    while i <= line_number
        invariant
            start <= i <= line_number + 1,
            line_number < u16::MAX,
            ls@.map_values(|x: String| x@) == l,
            out@ == before + frame_lines(l, start as int, i - 1),
        decreases line_number + 1 - i,
    {
        if (i as usize) < ls.len() {
            assert(ls@[i as int]@ == l[i as int]);
            write_right_aligned(&mut out, i as usize + 1, 3);
            out.append(" │ ");
            out.append(ls[i as usize].as_str());
            out.append("\n");
        }
        i = i + 1;
        assert(out@ =~= before + frame_lines(l, start as int, i - 1));
    }
    if (line_number as usize) < ls.len() - 1 {
        out.append("    ·\n");
    }
    out.append("────╯\n");
    assert(out@ =~= code_frame_text(file@, source@, line_number as int));
    out
}

/// The text that reports a diagnostic under `label`, and frames each of its
/// lines.
pub open spec fn report_text(
    label: Seq<char>,
    file: Seq<char>,
    source: Seq<char>,
    title: Seq<char>,
    message: Seq<char>,
    lines: Seq<u16>,
) -> Seq<char> {
    label + " "@ + bold_text(title) + "\n"@ + message + "\n\n"@ + frames(file, source, lines)
}

/// The text in bold.
pub open spec fn bold_text(text: Seq<char>) -> Seq<char> {
    "\u{001b}[1m"@ + text + "\u{001b}[0m"@
}

/// The frames around each of the lines.
pub open spec fn frames(file: Seq<char>, source: Seq<char>, lines: Seq<u16>) -> Seq<char>
    decreases lines.len(),
{
    if lines.len() == 0 {
        Seq::empty()
    } else {
        frames(file, source, lines.drop_last()) + code_frame_text(
            file,
            source,
            lines.last() as int,
        )
    }
}

fn write_report(label: &str, file: &str, source: &str, diagnostic: &Diagnostic) -> (r: String)
    requires
        diagnostic.lines@.len() > 0 ==> lines_of(source@).len() >= 1,
        forall|i: int| 0 <= i < diagnostic.lines@.len() ==> diagnostic.lines@[i] < u16::MAX,
    ensures
        r@ == report_text(
            label@,
            file@,
            source@,
            diagnostic.title@,
            diagnostic.message@,
            diagnostic.lines@,
        ),
{
    let mut out = String::from_str(label);
    out.append(" ");
    out.append(bold(diagnostic.title.as_str()).as_str());
    out.append("\n");
    out.append(diagnostic.message.as_str());
    out.append("\n\n");
    let ghost before = out@;
    let mut i: usize = 0;
    while i < diagnostic.lines.len()
        invariant
            i <= diagnostic.lines@.len(),
            diagnostic.lines@.len() > 0 ==> lines_of(source@).len() >= 1,
            forall|k: int| 0 <= k < diagnostic.lines@.len() ==> diagnostic.lines@[k] < u16::MAX,
            out@ == before + frames(file@, source@, diagnostic.lines@.subrange(0, i as int)),
        decreases diagnostic.lines@.len() - i,
    {
        let frame = code_frame(file, source, diagnostic.lines[i]);
        out.append(frame.as_str());
        i = i + 1;
        assert(diagnostic.lines@.subrange(0, i as int).drop_last() =~= diagnostic.lines@.subrange(
            0,
            i - 1,
        ));
        assert(out@ =~= before + frames(file@, source@, diagnostic.lines@.subrange(0, i as int)));
    }
    assert(diagnostic.lines@.subrange(0, diagnostic.lines@.len() as int) =~= diagnostic.lines@);
    out
}

/// The report of an error: its title in bold after a bold red label, its
/// message, and a frame around each of its lines.
pub fn error(filename: &str, source: &str, diagnostic: &Diagnostic) -> (r: String)
    requires
        diagnostic.lines@.len() > 0 ==> lines_of(source@).len() >= 1,
        forall|i: int| 0 <= i < diagnostic.lines@.len() ==> diagnostic.lines@[i] < u16::MAX,
    ensures
        r@ == report_text(
            bold_text("\u{001b}[31m"@ + "Error:"@ + "\u{001b}[0m"@),
            filename@,
            source@,
            diagnostic.title@,
            diagnostic.message@,
            diagnostic.lines@,
        ),
{
    let label = bold(red("Error:").as_str());
    write_report(label.as_str(), filename, source, diagnostic)
}

/// The report of a warning, as an error's but with a bold yellow label.
pub fn warning(filename: &str, source: &str, diagnostic: &Diagnostic) -> (r: String)
    requires
        diagnostic.lines@.len() > 0 ==> lines_of(source@).len() >= 1,
        forall|i: int| 0 <= i < diagnostic.lines@.len() ==> diagnostic.lines@[i] < u16::MAX,
    ensures
        r@ == report_text(
            bold_text("\u{001b}[33m"@ + "Warning:"@ + "\u{001b}[0m"@),
            filename@,
            source@,
            diagnostic.title@,
            diagnostic.message@,
            diagnostic.lines@,
        ),
{
    let label = bold(yellow("Warning:").as_str());
    write_report(label.as_str(), filename, source, diagnostic)
}

} // verus!

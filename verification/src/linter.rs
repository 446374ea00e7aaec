//! The linter: rules that point at code that is legal but likely wrong or
//! needless. Each rule walks the whole tree, children before parents, and
//! collects the spans of the code it objects to.
use crate::diagnostic::Diagnostic;
use crate::syntax::ast::{
    constant_expr, line_at, lines_fit, BinaryOperator, Expr, Expression, Span, Statement, Stmt,
};
use crate::syntax::tokens::LineNumber;
use crate::text::{bytes_of, same_chars};
use vstd::prelude::*;
use vstd::string::{StrSliceExecFns, StringExecFns};

verus! {

/// The rules, in the order `lint` reports them.
#[derive(Clone, Copy, PartialEq, Eq, Structural)]
pub enum Rule {
    ConstantCondition,
    YodaEquality,
    NegativeZero,
    SelfAssign,
    Unreachable,
}

impl Rule {
    pub open spec fn spec_title(self) -> Seq<char> {
        match self {
            Rule::ConstantCondition => "No Constant Conditions"@,
            Rule::YodaEquality => "No Yoda Equality"@,
            Rule::NegativeZero => "No Negative Zero"@,
            Rule::SelfAssign => "No Self Assign"@,
            Rule::Unreachable => "No Unreachable Code"@,
        }
    }

    pub open spec fn spec_message(self) -> Seq<char> {
        match self {
            Rule::ConstantCondition => "The control flow could be removed, as the condition is always true or false"@,
            Rule::YodaEquality => "It is clearer to have the variable first then the value to compare to"@,
            Rule::NegativeZero => "Negative zero is unnecessary as 0 == -0"@,
            Rule::SelfAssign => "Assigning a variable to itself is unnecessary"@,
            Rule::Unreachable => "Code after a return can never be executed"@,
        }
    }

    pub fn title(self) -> (r: &'static str)
        ensures
            r@ == self.spec_title(),
    {
        match self {
            Rule::ConstantCondition => "No Constant Conditions",
            Rule::YodaEquality => "No Yoda Equality",
            Rule::NegativeZero => "No Negative Zero",
            Rule::SelfAssign => "No Self Assign",
            Rule::Unreachable => "No Unreachable Code",
        }
    }

    pub fn message(self) -> (r: &'static str)
        ensures
            r@ == self.spec_message(),
    {
        match self {
            Rule::ConstantCondition => "The control flow could be removed, as the condition is always true or false",
            Rule::YodaEquality => "It is clearer to have the variable first then the value to compare to",
            Rule::NegativeZero => "Negative zero is unnecessary as 0 == -0",
            Rule::SelfAssign => "Assigning a variable to itself is unnecessary",
            Rule::Unreachable => "Code after a return can never be executed",
        }
    }
}

/// A number literal whose value is zero: only zero digits, points and
/// separators, with at least one zero.
pub open spec fn zero_number(v: Seq<char>) -> bool {
    &&& forall|i: int| 0 <= i < v.len() ==> (#[trigger] v[i] == '0' || v[i] == '.' || v[i] == '_')
    &&& exists|i: int| 0 <= i < v.len() && #[trigger] v[i] == '0'
}

/// What a rule reports of an expression, once its children are visited.
pub open spec fn expression_issue(rule: Rule, e: Expression) -> Seq<Span> {
    match rule {
        Rule::YodaEquality => match e.expr {
            Expr::Binary { operator, left, right } => if (operator == BinaryOperator::Equal
                || operator == BinaryOperator::NotEqual) && right.expr is Variable
                && left.expr is Literal {
                seq![e.span]
            } else {
                Seq::empty()
            },
            _ => Seq::empty(),
        },
        Rule::NegativeZero => match e.expr {
            Expr::Unary { expression, .. } => match expression.expr {
                Expr::Literal { value, .. } => if zero_number(value@) {
                    seq![expression.span]
                } else {
                    Seq::empty()
                },
                _ => Seq::empty(),
            },
            _ => Seq::empty(),
        },
        Rule::SelfAssign => match e.expr {
            Expr::Assignment { identifier, expression } => match expression.expr {
                Expr::Variable { name } => if identifier@ == name@ {
                    seq![expression.span]
                } else {
                    Seq::empty()
                },
                _ => Seq::empty(),
            },
            _ => Seq::empty(),
        },
        _ => Seq::empty(),
    }
}

/// The position of the first `return` in the statements from `i` on, or
/// their number.
pub open spec fn first_return(body: Seq<Statement>, i: int) -> int
    decreases body.len() - i,
{
    if i < 0 || i >= body.len() {
        body.len() as int
    } else if body[i].stmt is Return {
        i
    } else {
        first_return(body, i + 1)
    }
}

/// What a rule reports of a statement, once its children are visited.
pub open spec fn statement_issue(rule: Rule, s: Statement) -> Seq<Span> {
    match rule {
        Rule::ConstantCondition => match s.stmt {
            Stmt::If { condition, .. } => if constant_expr(condition.expr) {
                seq![s.span]
            } else {
                Seq::empty()
            },
            Stmt::While { condition, .. } => if constant_expr(condition.expr) {
                seq![s.span]
            } else {
                Seq::empty()
            },
            _ => Seq::empty(),
        },
        Rule::Unreachable => match s.stmt {
            Stmt::Block { body } => {
                let r = first_return(body@, 0);
                if r + 1 < body@.len() {
                    seq![body@[r + 1].span]
                } else {
                    Seq::empty()
                }
            },
            _ => Seq::empty(),
        },
        _ => Seq::empty(),
    }
}

/// Everything a rule reports in an expression: its children's issues, in
/// order, then its own.
pub open spec fn expr_issues(rule: Rule, e: Expression) -> Seq<Span>
    decreases e, 0nat,
{
    let children = match e.expr {
        Expr::Assignment { expression, .. } => expr_issues(rule, *expression),
        Expr::Group { expression } => expr_issues(rule, *expression),
        Expr::Unary { expression, .. } => expr_issues(rule, *expression),
        Expr::Comment { expression, .. } => expr_issues(rule, *expression),
        Expr::Binary { left, right, .. } => expr_issues(rule, *left) + expr_issues(rule, *right),
        Expr::Call { expression, arguments } => expr_issues(rule, *expression) + exprs_issues(
            rule,
            arguments@,
        ),
        Expr::Function { body, .. } => stmt_issues(rule, *body),
        Expr::List { items } => exprs_issues(rule, items@),
        Expr::Index { expression, index } => expr_issues(rule, *expression) + expr_issues(
            rule,
            *index,
        ),
        Expr::IndexAssignment { expression, index, value, .. } => expr_issues(rule, *expression)
            + expr_issues(rule, *index) + expr_issues(rule, *value),
        Expr::FormatString { expressions, .. } => exprs_issues(rule, expressions@),
        Expr::Dictionary { items } => entries_issues(rule, items@),
        Expr::Literal { .. } | Expr::Variable { .. } | Expr::ModuleAccess { .. } => Seq::empty(),
    };
    children + expression_issue(rule, e)
}

pub open spec fn exprs_issues(rule: Rule, s: Seq<Expression>) -> Seq<Span>
    decreases s, 0nat,
{
    if s.len() == 0 {
        Seq::empty()
    } else {
        exprs_issues(rule, s.subrange(0, s.len() - 1)) + expr_issues(rule, s[s.len() - 1])
    }
}

pub open spec fn entries_issues(rule: Rule, s: Seq<(Expression, Expression)>) -> Seq<Span>
    decreases s, 0nat,
{
    if s.len() == 0 {
        Seq::empty()
    } else {
        entries_issues(rule, s.subrange(0, s.len() - 1)) + expr_issues(rule, s[s.len() - 1].0)
            + expr_issues(rule, s[s.len() - 1].1)
    }
}

/// Everything a rule reports in a statement: its children's issues, in
/// order, then its own.
pub open spec fn stmt_issues(rule: Rule, s: Statement) -> Seq<Span>
    decreases s, 0nat,
{
    let children = match s.stmt {
        Stmt::Block { body } => stmts_issues(rule, body@),
        Stmt::Declaration { expression, .. } => match expression {
            Some(value) => expr_issues(rule, value),
            None => Seq::empty(),
        },
        Stmt::Expression { expression } => expr_issues(rule, expression),
        Stmt::If { condition, then, otherwise } => expr_issues(rule, condition) + stmt_issues(
            rule,
            *then,
        ) + match otherwise {
            Some(other) => stmt_issues(rule, *other),
            None => Seq::empty(),
        },
        Stmt::Return { expression } => match expression {
            Some(value) => expr_issues(rule, value),
            None => Seq::empty(),
        },
        Stmt::While { condition, body } => expr_issues(rule, condition) + stmt_issues(rule, *body),
        Stmt::Comment { .. } | Stmt::Import { .. } => Seq::empty(),
    };
    children + statement_issue(rule, s)
}

pub open spec fn stmts_issues(rule: Rule, s: Seq<Statement>) -> Seq<Span>
    decreases s, 0nat,
{
    if s.len() == 0 {
        Seq::empty()
    } else {
        stmts_issues(rule, s.subrange(0, s.len() - 1)) + stmt_issues(rule, s[s.len() - 1])
    }
}

/// The diagnostic a rule gives for a program: its title and message, and
/// the line of each issue.
pub open spec fn reports(d: Diagnostic, b: Seq<u8>, rule: Rule, ast: Seq<Statement>) -> bool {
    &&& d.title@ == rule.spec_title()
    &&& d.message@ == rule.spec_message()
    &&& d.lines@ == stmts_issues(rule, ast).map_values(
        |s: Span| line_at(b, s.start as int) as LineNumber,
    )
}

/// The rules in the order they are reported.
pub open spec fn all_rules() -> Seq<Rule> {
    seq![
        Rule::ConstantCondition,
        Rule::YodaEquality,
        Rule::NegativeZero,
        Rule::SelfAssign,
        Rule::Unreachable,
    ]
}

/// The first `n` rules that find something in the program, in order.
pub open spec fn rules_with_issues(ast: Seq<Statement>, n: int) -> Seq<Rule>
    decreases n,
{
    if n <= 0 {
        Seq::empty()
    } else {
        let rest = rules_with_issues(ast, n - 1);
        if stmts_issues(all_rules()[n - 1], ast).len() > 0 {
            rest.push(all_rules()[n - 1])
        } else {
            rest
        }
    }
}

proof fn lemma_exprs_step(rule: Rule, s: Seq<Expression>, i: int)
    requires
        0 <= i < s.len(),
    ensures
        exprs_issues(rule, s.subrange(0, i + 1)) == exprs_issues(rule, s.subrange(0, i))
            + expr_issues(rule, s[i]),
{
    assert(s.subrange(0, i + 1).subrange(0, i) =~= s.subrange(0, i));
}

proof fn lemma_entries_step(rule: Rule, s: Seq<(Expression, Expression)>, i: int)
    requires
        0 <= i < s.len(),
    ensures
        entries_issues(rule, s.subrange(0, i + 1)) == entries_issues(rule, s.subrange(0, i))
            + expr_issues(rule, s[i].0) + expr_issues(rule, s[i].1),
{
    assert(s.subrange(0, i + 1).subrange(0, i) =~= s.subrange(0, i));
}

proof fn lemma_stmts_step(rule: Rule, s: Seq<Statement>, i: int)
    requires
        0 <= i < s.len(),
    ensures
        stmts_issues(rule, s.subrange(0, i + 1)) == stmts_issues(rule, s.subrange(0, i))
            + stmt_issues(rule, s[i]),
{
    assert(s.subrange(0, i + 1).subrange(0, i) =~= s.subrange(0, i));
}

/// Whether a number literal's value is zero.
fn is_zero_number(value: &str) -> (r: bool)
    ensures
        r == zero_number(value@),
{
    let n = value.unicode_len();
    let mut i: usize = 0;
    let mut only_zeros = true;
    let mut has_zero = false;
    while i < n
        invariant
            n == value@.len(),
            i <= n,
            only_zeros == (forall|k: int| 0 <= k < i ==> (#[trigger] value@[k] == '0' || value@[k] == '.' || value@[k] == '_')),
            has_zero == (exists|k: int| 0 <= k < i && #[trigger] value@[k] == '0'),
        decreases n - i,
    {
        let c = value.get_char(i);
        if !(c == '0' || c == '.' || c == '_') {
            only_zeros = false;
        }
        if c == '0' {
            has_zero = true;
        }
        i = i + 1;
    }
    only_zeros && has_zero
}

/// A walk of the tree for one rule, collecting its issues.
struct Walker {
    rule: Rule,
    issues: Vec<Span>,
}

impl Walker {
    fn exit_expression(&mut self, e: &Expression)
        ensures
            final(self).rule == old(self).rule,
            final(self).issues@ == old(self).issues@ + expression_issue(old(self).rule, *e),
    {
        let ghost start = self.issues@;
        match self.rule {
            Rule::YodaEquality => {
                if let Expr::Binary { left, right, operator } = &e.expr {
                    let equality = *operator == BinaryOperator::Equal || *operator
                        == BinaryOperator::NotEqual;
                    let yoda = match (&right.expr, &left.expr) {
                        (Expr::Variable { .. }, Expr::Literal { .. }) => true,
                        _ => false,
                    };
                    if equality && yoda {
                        self.issues.push(e.span);
                    }
                }
            },
            Rule::NegativeZero => {
                if let Expr::Unary { expression, .. } = &e.expr {
                    if let Expr::Literal { value, .. } = &expression.expr {
                        if is_zero_number(value) {
                            self.issues.push(expression.span);
                        }
                    }
                }
            },
            Rule::SelfAssign => {
                if let Expr::Assignment { identifier, expression } = &e.expr {
                    if let Expr::Variable { name } = &expression.expr {
                        if same_chars(identifier, name) {
                            self.issues.push(expression.span);
                        }
                    }
                }
            },
            _ => {},
        }
        assert(self.issues@ =~= start + expression_issue(self.rule, *e));
    }

    fn exit_statement(&mut self, s: &Statement)
        ensures
            final(self).rule == old(self).rule,
            final(self).issues@ == old(self).issues@ + statement_issue(old(self).rule, *s),
    {
        let ghost start = self.issues@;
        match self.rule {
            Rule::ConstantCondition => {
                match &s.stmt {
                    Stmt::If { condition, .. } => {
                        if condition.expr.is_constant() {
                            self.issues.push(s.span);
                        }
                    },
                    Stmt::While { condition, .. } => {
                        if condition.expr.is_constant() {
                            self.issues.push(s.span);
                        }
                    },
                    _ => {},
                }
            },
            Rule::Unreachable => {
                if let Stmt::Block { body } = &s.stmt {
                    let ghost b = body@;
                    let mut i: usize = 0;
                    let mut found = false;
                    while !found && i < body.len()
                        invariant
                            b == body@,
                            i <= b.len(),
                            first_return(b, i as int) == first_return(b, 0),
                            found ==> i < b.len() && b[i as int].stmt is Return,
                        decreases b.len() - i + if found { 0int } else { 1int },
                    {
                        if let Stmt::Return { .. } = &body[i].stmt {
                            found = true;
                        } else {
                            i = i + 1;
                        }
                    }
                    if found && i < body.len() - 1 {
                        self.issues.push(body[i + 1].span);
                    }
                }
            },
            _ => {},
        }
        assert(self.issues@ =~= start + statement_issue(self.rule, *s));
    }

    fn visit_expressions(&mut self, items: &Vec<Expression>)
        ensures
            final(self).rule == old(self).rule,
            final(self).issues@ == old(self).issues@ + exprs_issues(old(self).rule, items@),
        decreases items, 0nat,
    {
        let ghost start = self.issues@;
        let mut i: usize = 0;
        assert(items@.subrange(0, 0) =~= Seq::<Expression>::empty());
        while i < items.len()
            invariant
                self.rule == old(self).rule,
                start == old(self).issues@,
                i <= items@.len(),
                self.issues@ == start + exprs_issues(self.rule, items@.subrange(0, i as int)),
            decreases items@.len() - i,
        {
            proof {
                lemma_exprs_step(self.rule, items@, i as int);
            }
            self.visit_expression(&items[i]);
            i = i + 1;
            assert(self.issues@ =~= start + exprs_issues(self.rule, items@.subrange(0, i as int)));
        }
        assert(items@.subrange(0, items@.len() as int) =~= items@);
    }

    fn visit_entries(&mut self, items: &Vec<(Expression, Expression)>)
        ensures
            final(self).rule == old(self).rule,
            final(self).issues@ == old(self).issues@ + entries_issues(old(self).rule, items@),
        decreases items, 0nat,
    {
        let ghost start = self.issues@;
        let mut i: usize = 0;
        assert(items@.subrange(0, 0) =~= Seq::<(Expression, Expression)>::empty());
        while i < items.len()
            invariant
                self.rule == old(self).rule,
                start == old(self).issues@,
                i <= items@.len(),
                self.issues@ == start + entries_issues(self.rule, items@.subrange(0, i as int)),
            decreases items@.len() - i,
        {
            proof {
                lemma_entries_step(self.rule, items@, i as int);
            }
            let entry = &items[i];
            self.visit_expression(&entry.0);
            self.visit_expression(&entry.1);
            i = i + 1;
            assert(self.issues@ =~= start + entries_issues(self.rule, items@.subrange(0, i as int)));
        }
        assert(items@.subrange(0, items@.len() as int) =~= items@);
    }

    fn visit_statements(&mut self, items: &Vec<Statement>)
        ensures
            final(self).rule == old(self).rule,
            final(self).issues@ == old(self).issues@ + stmts_issues(old(self).rule, items@),
        decreases items, 0nat,
    {
        let ghost start = self.issues@;
        let mut i: usize = 0;
        assert(items@.subrange(0, 0) =~= Seq::<Statement>::empty());
        while i < items.len()
            invariant
                self.rule == old(self).rule,
                start == old(self).issues@,
                i <= items@.len(),
                self.issues@ == start + stmts_issues(self.rule, items@.subrange(0, i as int)),
            decreases items@.len() - i,
        {
            proof {
                lemma_stmts_step(self.rule, items@, i as int);
            }
            self.visit_statement(&items[i]);
            i = i + 1;
            assert(self.issues@ =~= start + stmts_issues(self.rule, items@.subrange(0, i as int)));
        }
        assert(items@.subrange(0, items@.len() as int) =~= items@);
    }

    #[verifier::rlimit(40)]
    fn visit_expression(&mut self, e: &Expression)
        ensures
            final(self).rule == old(self).rule,
            final(self).issues@ == old(self).issues@ + expr_issues(old(self).rule, *e),
        decreases e, 0nat,
    {
        let ghost start = self.issues@;
        match &e.expr {
            Expr::Assignment { expression, .. } => self.visit_expression(expression),
            Expr::Group { expression } => self.visit_expression(expression),
            Expr::Unary { expression, .. } => self.visit_expression(expression),
            Expr::Comment { expression, .. } => self.visit_expression(expression),
            Expr::Binary { left, right, .. } => {
                self.visit_expression(left);
                self.visit_expression(right);
            },
            Expr::Call { expression, arguments } => {
                self.visit_expression(expression);
                self.visit_expressions(arguments);
            },
            Expr::Function { body, .. } => self.visit_statement(body),
            Expr::List { items } => self.visit_expressions(items),
            Expr::Index { expression, index } => {
                self.visit_expression(expression);
                self.visit_expression(index);
            },
            Expr::IndexAssignment { expression, index, value, .. } => {
                self.visit_expression(expression);
                self.visit_expression(index);
                self.visit_expression(value);
            },
            Expr::FormatString { expressions, .. } => self.visit_expressions(expressions),
            Expr::Dictionary { items } => self.visit_entries(items),
            Expr::Literal { .. } | Expr::Variable { .. } | Expr::ModuleAccess { .. } => {},
        }
        let ghost children = self.issues@;
        self.exit_expression(e);
        assert(self.issues@ =~= start + expr_issues(self.rule, *e));
    }

    #[verifier::rlimit(40)]
    fn visit_statement(&mut self, s: &Statement)
        ensures
            final(self).rule == old(self).rule,
            final(self).issues@ == old(self).issues@ + stmt_issues(old(self).rule, *s),
        decreases s, 0nat,
    {
        let ghost start = self.issues@;
        match &s.stmt {
            Stmt::Block { body } => self.visit_statements(body),
            Stmt::Declaration { expression, .. } => {
                if let Some(value) = expression {
                    self.visit_expression(value);
                }
            },
            Stmt::Expression { expression } => self.visit_expression(expression),
            Stmt::If { condition, then, otherwise } => {
                self.visit_expression(condition);
                self.visit_statement(then);
                if let Some(other) = otherwise {
                    self.visit_statement(other);
                }
            },
            Stmt::Return { expression } => {
                if let Some(value) = expression {
                    self.visit_expression(value);
                }
            },
            Stmt::While { condition, body } => {
                self.visit_expression(condition);
                self.visit_statement(body);
            },
            Stmt::Comment { .. } | Stmt::Import { .. } => {},
        }
        self.exit_statement(s);
        assert(self.issues@ =~= start + stmt_issues(self.rule, *s));
    }
}

/// The diagnostic of one rule over a program.
fn check_rule(rule: Rule, source: &str, ast: &[Statement]) -> (r: Diagnostic)
    requires
        lines_fit(bytes_of(source)),
    ensures
        reports(r, bytes_of(source), rule, ast@),
{
    let mut walker = Walker { rule, issues: Vec::new() };
    let ghost b = bytes_of(source);
    let mut i: usize = 0;
    assert(ast@.subrange(0, 0) =~= Seq::<Statement>::empty());
    while i < ast.len()
        invariant
            walker.rule == rule,
            i <= ast@.len(),
            walker.issues@ == stmts_issues(rule, ast@.subrange(0, i as int)),
        decreases ast@.len() - i,
    {
        proof {
            lemma_stmts_step(rule, ast@, i as int);
        }
        walker.visit_statement(&ast[i]);
        i = i + 1;
    }
    assert(ast@.subrange(0, ast@.len() as int) =~= ast@);
    let issues = walker.issues;
    let mut lines: Vec<LineNumber> = Vec::new();
    let mut k: usize = 0;
    while k < issues.len()
        invariant
            lines_fit(b),
            b == bytes_of(source),
            k <= issues@.len(),
            lines@ == issues@.subrange(0, k as int).map_values(
                |s: Span| line_at(b, s.start as int) as LineNumber,
            ),
        decreases issues@.len() - k,
    {
        let line = issues[k].get_line_number(source);
        lines.push(line);
        k = k + 1;
        assert(lines@ =~= issues@.subrange(0, k as int).map_values(
            |s: Span| line_at(b, s.start as int) as LineNumber,
        ));
    }
    assert(issues@.subrange(0, issues@.len() as int) =~= issues@);
    Diagnostic {
        title: String::from_str(rule.title()),
        message: String::from_str(rule.message()),
        lines,
    }
}

/// Flags `if` and `while` statements whose condition is constant.
pub struct NoConstantCondition;

/// Flags `==` and `!=` with the literal on the left of the variable.
pub struct NoYodaEqualityCheck;

/// Flags `-0`.
pub struct NoNegativeZero;

/// Flags `x = x`.
pub struct NoSelfAssign;

/// Flags the first statement of a block after a `return`.
pub struct NoUnreachable;

impl NoConstantCondition {
    pub fn check(source: &str, ast: &[Statement]) -> (r: Diagnostic)
        requires
            lines_fit(bytes_of(source)),
        ensures
            reports(r, bytes_of(source), Rule::ConstantCondition, ast@),
    {
        check_rule(Rule::ConstantCondition, source, ast)
    }
}

impl NoYodaEqualityCheck {
    pub fn check(source: &str, ast: &[Statement]) -> (r: Diagnostic)
        requires
            lines_fit(bytes_of(source)),
        ensures
            reports(r, bytes_of(source), Rule::YodaEquality, ast@),
    {
        check_rule(Rule::YodaEquality, source, ast)
    }
}

impl NoNegativeZero {
    pub fn check(source: &str, ast: &[Statement]) -> (r: Diagnostic)
        requires
            lines_fit(bytes_of(source)),
        ensures
            reports(r, bytes_of(source), Rule::NegativeZero, ast@),
    {
        check_rule(Rule::NegativeZero, source, ast)
    }
}

impl NoSelfAssign {
    pub fn check(source: &str, ast: &[Statement]) -> (r: Diagnostic)
        requires
            lines_fit(bytes_of(source)),
        ensures
            reports(r, bytes_of(source), Rule::SelfAssign, ast@),
    {
        check_rule(Rule::SelfAssign, source, ast)
    }
}

impl NoUnreachable {
    pub fn check(source: &str, ast: &[Statement]) -> (r: Diagnostic)
        requires
            lines_fit(bytes_of(source)),
        ensures
            reports(r, bytes_of(source), Rule::Unreachable, ast@),
    {
        check_rule(Rule::Unreachable, source, ast)
    }
}

/// Runs every rule over a program: `ast` is the tree parsed from
/// `source`. One diagnostic for each rule that found something, in the
/// order of the rules.
pub fn lint(source: &str, ast: &[Statement]) -> (r: Vec<Diagnostic>)
    requires
        lines_fit(bytes_of(source)),
    ensures
        r@.len() == rules_with_issues(ast@, 5).len(),
        forall|i: int| 0 <= i < r@.len() ==> reports(#[trigger] r@[i], bytes_of(source), rules_with_issues(ast@, 5)[i], ast@),
{
    let ghost b = bytes_of(source);
    let mut rules: Vec<Rule> = Vec::new();
    rules.push(Rule::ConstantCondition);
    rules.push(Rule::YodaEquality);
    rules.push(Rule::NegativeZero);
    rules.push(Rule::SelfAssign);
    rules.push(Rule::Unreachable);
    assert(rules@ =~= all_rules());
    let mut results: Vec<Diagnostic> = Vec::new();
    let mut i: usize = 0;
    while i < rules.len()
        invariant
            lines_fit(b),
            b == bytes_of(source),
            rules@ == all_rules(),
            i <= 5,
            results@.len() == rules_with_issues(ast@, i as int).len(),
            forall|k: int| 0 <= k < results@.len() ==> reports(#[trigger] results@[k], b, rules_with_issues(ast@, i as int)[k], ast@),
        decreases 5 - i,
    {
        let d = check_rule(rules[i], source, ast);
        let ghost before = results@;
        if d.lines.len() > 0 {
            results.push(d);
        }
        i = i + 1;
        proof {
            assert forall|k: int| 0 <= k < results@.len() implies reports(#[trigger] results@[k], b, rules_with_issues(ast@, i as int)[k], ast@) by {
                if k < before.len() {
                    assert(results@[k] == before[k]);
                }
            }
        }
    }
    results
}

/// Where a rule stands among the five.
pub open spec fn rule_rank(rule: Rule) -> int {
    match rule {
        Rule::ConstantCondition => 0,
        Rule::YodaEquality => 1,
        Rule::NegativeZero => 2,
        Rule::SelfAssign => 3,
        Rule::Unreachable => 4,
    }
}

proof fn lemma_rules_with_issues(ast: Seq<Statement>, n: int)
    requires
        0 <= n <= 5,
    ensures
        forall|i: int| 0 <= i < rules_with_issues(ast, n).len() ==> rule_rank(#[trigger] rules_with_issues(ast, n)[i]) < n,
        forall|i: int, j: int| 0 <= i < j < rules_with_issues(ast, n).len() ==> rule_rank(#[trigger] rules_with_issues(ast, n)[i]) < rule_rank(#[trigger] rules_with_issues(ast, n)[j]),
        forall|i: int|
            0 <= i < rules_with_issues(ast, n).len() ==> stmts_issues(
                #[trigger] rules_with_issues(ast, n)[i],
                ast,
            ).len() > 0,
        (rules_with_issues(ast, n).len() == 0) <==> (forall|k: int|
            0 <= k < n ==> stmts_issues(#[trigger] all_rules()[k], ast).len() == 0),
    decreases n,
{
    if n > 0 {
        lemma_rules_with_issues(ast, n - 1);
        let rest = rules_with_issues(ast, n - 1);
        assert(rule_rank(all_rules()[n - 1]) == n - 1);
        if stmts_issues(all_rules()[n - 1], ast).len() > 0 {
            let r = rules_with_issues(ast, n);
            assert forall|i: int| 0 <= i < r.len() implies rule_rank(#[trigger] r[i]) < n by {
                if i < rest.len() {
                    assert(r[i] == rest[i]);
                }
            }
            assert forall|i: int, j: int| 0 <= i < j < r.len() implies rule_rank(#[trigger] r[i]) < rule_rank(#[trigger] r[j]) by {
                assert(r[i] == rest[i]);
                if j < rest.len() {
                    assert(r[j] == rest[j]);
                }
            }
            assert forall|i: int| 0 <= i < rules_with_issues(ast, n).len() implies stmts_issues(
                #[trigger] rules_with_issues(ast, n)[i],
                ast,
            ).len() > 0 by {
                if i < rest.len() {
                    assert(rules_with_issues(ast, n)[i] == rest[i]);
                }
            }
        }
    }
}

/// `lint` reports a rule only when it found an issue, and reports nothing
/// exactly when no rule finds one. The rules it reports come in the order
/// of the five rules, each at most once.
pub proof fn law_lint_reports_only_rules_with_issues(ast: Seq<Statement>)
    ensures
        forall|i: int, j: int| 0 <= i < j < rules_with_issues(ast, 5).len() ==> rule_rank(#[trigger] rules_with_issues(ast, 5)[i]) < rule_rank(#[trigger] rules_with_issues(ast, 5)[j]),
        forall|i: int|
            0 <= i < rules_with_issues(ast, 5).len() ==> stmts_issues(
                #[trigger] rules_with_issues(ast, 5)[i],
                ast,
            ).len() > 0,
        (rules_with_issues(ast, 5).len() == 0) <==> (forall|k: int|
            0 <= k < 5 ==> stmts_issues(#[trigger] all_rules()[k], ast).len() == 0),
{
    lemma_rules_with_issues(ast, 5);
}

/// The yoda rule reports an `==` or `!=` whose left side is a literal and
/// whose right side is a variable, once, at the comparison; it reports no
/// other expression, so never a comparison with a variable on the left.
pub proof fn law_yoda_equality(e: Expression)
    ensures
        expression_issue(Rule::YodaEquality, e).len() <= 1,
        expression_issue(Rule::YodaEquality, e).len() == 1 <==> (e.expr matches Expr::Binary {
            operator,
            left,
            right,
        } && (operator == BinaryOperator::Equal || operator == BinaryOperator::NotEqual)
            && left.expr is Literal && right.expr is Variable),
        expression_issue(Rule::YodaEquality, e).len() == 1 ==> expression_issue(
            Rule::YodaEquality,
            e,
        )[0] == e.span,
        e.expr matches Expr::Binary { left, .. } && left.expr is Variable ==> expression_issue(
            Rule::YodaEquality,
            e,
        ).len() == 0,
{
}

/// The negative-zero rule reports an operator applied to a number literal
/// whose value is zero, once, at the literal; nothing else.
pub proof fn law_negative_zero(e: Expression)
    ensures
        expression_issue(Rule::NegativeZero, e).len() <= 1,
        expression_issue(Rule::NegativeZero, e).len() == 1 <==> (e.expr matches Expr::Unary {
            expression,
            ..
        } && expression.expr matches Expr::Literal { value, .. } && zero_number(value@)),
        expression_issue(Rule::NegativeZero, e).len() == 1 ==> expression_issue(
            Rule::NegativeZero,
            e,
        )[0] == e.expr->Unary_expression.span,
        e.expr matches Expr::Unary { expression, .. } && expression.expr matches Expr::Literal {
            value,
            ..
        } && value@.contains('1') ==> expression_issue(Rule::NegativeZero, e).len() == 0,
{
}

/// The self-assignment rule reports `x = x`, once, at the right side; it
/// reports no assignment of another variable or of any other value.
pub proof fn law_self_assign(e: Expression)
    ensures
        expression_issue(Rule::SelfAssign, e).len() <= 1,
        expression_issue(Rule::SelfAssign, e).len() == 1 <==> (e.expr matches Expr::Assignment {
            identifier,
            expression,
        } && expression.expr matches Expr::Variable { name } && identifier@ == name@),
        expression_issue(Rule::SelfAssign, e).len() == 1 ==> expression_issue(
            Rule::SelfAssign,
            e,
        )[0] == e.expr->Assignment_expression.span,
{
}

/// The rules on expressions report nothing of a statement, and the rules
/// on statements nothing of an expression.
pub proof fn law_rules_by_kind(e: Expression, s: Statement)
    ensures
        expression_issue(Rule::ConstantCondition, e).len() == 0,
        expression_issue(Rule::Unreachable, e).len() == 0,
        statement_issue(Rule::YodaEquality, s).len() == 0,
        statement_issue(Rule::NegativeZero, s).len() == 0,
        statement_issue(Rule::SelfAssign, s).len() == 0,
{
}

/// The constant-condition rule reports an `if` or a `while` whose condition
/// is constant, once, at the statement; no other statement.
pub proof fn law_constant_condition(s: Statement)
    ensures
        statement_issue(Rule::ConstantCondition, s).len() <= 1,
        statement_issue(Rule::ConstantCondition, s).len() == 1 <==> ((s.stmt matches Stmt::If {
            condition,
            ..
        } && constant_expr(condition.expr)) || (s.stmt matches Stmt::While { condition, .. }
            && constant_expr(condition.expr))),
        statement_issue(Rule::ConstantCondition, s).len() == 1 ==> statement_issue(
            Rule::ConstantCondition,
            s,
        )[0] == s.span,
{
}

proof fn lemma_first_return(body: Seq<Statement>, i: int)
    requires
        0 <= i <= body.len(),
    ensures
        i <= first_return(body, i) <= body.len(),
        first_return(body, i) < body.len() ==> body[first_return(body, i)].stmt is Return,
        forall|k: int| i <= k < first_return(body, i) ==> !(#[trigger] body[k].stmt is Return),
    decreases body.len() - i,
{
    if i < body.len() && !(body[i].stmt is Return) {
        lemma_first_return(body, i + 1);
    }
}

/// The unreachable-code rule reports, in a block, the statement right after
/// the first `return` when there is one; nothing else.
pub proof fn law_unreachable(s: Statement)
    ensures
        statement_issue(Rule::Unreachable, s).len() <= 1,
        statement_issue(Rule::Unreachable, s).len() == 1 <==> (s.stmt matches Stmt::Block { body }
            && exists|r: int| 0 <= r && r + 1 < body@.len() && (#[trigger] body@[r]).stmt is Return),
        statement_issue(Rule::Unreachable, s).len() == 1 ==> (s.stmt matches Stmt::Block { body }
            && exists|r: int|
            0 <= r && r + 1 < body@.len() && (#[trigger] body@[r]).stmt is Return && (forall|k: int|
                0 <= k < r ==> !(#[trigger] body@[k].stmt is Return)) && statement_issue(
                Rule::Unreachable,
                s,
            )[0] == body@[r + 1].span),
{
    match s.stmt {
        Stmt::Block { body } => {
            lemma_first_return(body@, 0);
            let r = first_return(body@, 0);
            if r + 1 < body@.len() {
                assert(body@[r].stmt is Return);
            }
        },
        _ => {},
    }
}

} // verus!

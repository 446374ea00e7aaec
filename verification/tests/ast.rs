use bang::ast::{visit, Expr, GetPosition, Stmt, Visitor};
use bang::print::ast;
use bang::tokens::{tokenize, Token, TokenType};

fn find<'a>(tokens: &'a [Token<'a>], value: &str) -> &'a Token<'a> {
    tokens.iter().find(|t| t.value == value).unwrap()
}

#[test]
fn ast_tells_side_effects_and_constants() {
    let tokens = tokenize("a = 1 + f\n");
    let a = find(&tokens, "a");
    let one = find(&tokens, "1");
    let plus = find(&tokens, "+");
    let f = find(&tokens, "f");
    let sum = Expr::Binary {
        operator: plus,
        left: Box::new(Expr::Literal { token: one, value: "1" }),
        right: Box::new(Expr::Variable { token: f }),
    };
    assert!(!sum.has_side_effect());
    assert!(!sum.is_constant());
    let assignment = Expr::Assignment {
        identifier: a,
        expression: Box::new(Expr::Literal { token: one, value: "1" }),
    };
    assert!(assignment.has_side_effect());
    assert!(assignment.is_constant());
    let constant = Expr::Binary {
        operator: plus,
        left: Box::new(Expr::Literal { token: one, value: "1" }),
        right: Box::new(Expr::Literal { token: one, value: "1" }),
    };
    assert!(constant.is_constant());
    assert!(!constant.has_side_effect());
}

#[test]
fn ast_finds_first_and_last_tokens() {
    let tokens = tokenize("1 + f\n");
    let one = find(&tokens, "1");
    let plus = find(&tokens, "+");
    let f = find(&tokens, "f");
    let sum = Expr::Binary {
        operator: plus,
        left: Box::new(Expr::Literal { token: one, value: "1" }),
        right: Box::new(Expr::Variable { token: f }),
    };
    assert_eq!(sum.get_start().value, "1");
    assert_eq!(sum.get_end().value, "f");
    let block = Stmt::Block {
        body: vec![
            Stmt::Expression { expression: Expr::Variable { token: f } },
            Stmt::Expression { expression: sum },
        ],
    };
    assert_eq!(block.get_start().value, "f");
    assert_eq!(block.get_end().ttype, TokenType::Identifier);
    assert_eq!(block.get_end().start, 4);
}

struct Counter {
    expressions: usize,
    statements: usize,
}

impl<'s> Visitor<'s> for Counter {
    fn exit_expression(&mut self, _expression: &Expr<'s>) {
        self.expressions += 1;
    }

    fn exit_statement(&mut self, _statement: &Stmt<'s>) {
        self.statements += 1;
    }
}

struct Recorder {
    order: Vec<String>,
}

impl<'s> Visitor<'s> for Recorder {
    fn exit_expression(&mut self, expression: &Expr<'s>) {
        let name = match expression {
            Expr::Binary { .. } => "binary".to_string(),
            Expr::Literal { value, .. } => format!("literal {}", value),
            Expr::Variable { token } => format!("variable {}", token.value),
            Expr::Call { .. } => "call".to_string(),
            _ => "other".to_string(),
        };
        self.order.push(name);
    }

    fn exit_statement(&mut self, statement: &Stmt<'s>) {
        let name = match statement {
            Stmt::Block { .. } => "block",
            Stmt::Expression { .. } => "expression statement",
            _ => "other statement",
        };
        self.order.push(name.to_string());
    }
}

#[test]
fn ast_visitor_exits_children_before_parents_in_source_order() {
    let tokens = tokenize("f(1, x) + 2\n");
    let f = find(&tokens, "f");
    let one = find(&tokens, "1");
    let x = find(&tokens, "x");
    let two = find(&tokens, "2");
    let open = find(&tokens, "(");
    let close = find(&tokens, ")");
    let plus = find(&tokens, "+");
    let program = vec![
        Stmt::Expression { expression: Expr::Variable { token: x } },
        Stmt::Block {
            body: vec![Stmt::Expression {
                expression: Expr::Binary {
                    operator: plus,
                    left: Box::new(Expr::Call {
                        token: open,
                        end_token: close,
                        expression: Box::new(Expr::Variable { token: f }),
                        arguments: vec![
                            Expr::Literal { token: one, value: "1" },
                            Expr::Variable { token: x },
                        ],
                    }),
                    right: Box::new(Expr::Literal { token: two, value: "2" }),
                },
            }],
        },
    ];
    let mut recorder = Recorder { order: Vec::new() };
    visit(&mut recorder, &program);
    assert_eq!(
        recorder.order,
        vec![
            "variable x",
            "expression statement",
            "variable f",
            "literal 1",
            "variable x",
            "call",
            "literal 2",
            "binary",
            "expression statement",
            "block",
        ]
    );
}

#[test]
fn ast_visitor_exits_every_node() {
    let tokens = tokenize("1 + f\n");
    let one = find(&tokens, "1");
    let plus = find(&tokens, "+");
    let f = find(&tokens, "f");
    let program = vec![Stmt::Block {
        body: vec![Stmt::Expression {
            expression: Expr::Binary {
                operator: plus,
                left: Box::new(Expr::Literal { token: one, value: "1" }),
                right: Box::new(Expr::Variable { token: f }),
            },
        }],
    }];
    let mut counter = Counter { expressions: 0, statements: 0 };
    visit(&mut counter, &program);
    assert_eq!(counter.expressions, 3);
    assert_eq!(counter.statements, 2);
}

#[test]
fn ast_is_drawn_as_a_tree() {
    let tokens = tokenize("let x = 1 + 2\n");
    let x = find(&tokens, "x");
    let one = find(&tokens, "1");
    let two = find(&tokens, "2");
    let plus = find(&tokens, "+");
    let let_token = find(&tokens, "let");
    let program = vec![
        Stmt::Declaration {
            token: let_token,
            identifier: x,
            expression: Some(Expr::Binary {
                operator: plus,
                left: Box::new(Expr::Literal { token: one, value: "1" }),
                right: Box::new(Expr::Literal { token: two, value: "2" }),
            }),
        },
        Stmt::Expression { expression: Expr::Variable { token: x } },
    ];
    assert_eq!(
        ast(&program),
        "  ╭─[Abstract Syntax Tree]\n\
         \x20 ├─ Declaration (x)\n\
         \x20 │  ╰─ Binary (+)\n\
         \x20 │     ├─ Literal (1)\n\
         \x20 │     ╰─ Literal (2)\n\
         \x20 ├─ Expression\n\
         \x20 │  ╰─ Variable (x)\n\
         ──╯\n"
    );
}

#[test]
fn ast_draws_calls_and_functions() {
    let tokens = tokenize("f(a, b) ( ) return\n");
    let f = find(&tokens, "f");
    let a = find(&tokens, "a");
    let b = find(&tokens, "b");
    let open = find(&tokens, "(");
    let close = find(&tokens, ")");
    let ret = find(&tokens, "return");
    let program = vec![Stmt::Expression {
        expression: Expr::Call {
            token: open,
            end_token: close,
            expression: Box::new(Expr::Function {
                token: open,
                parameters: vec![a, b],
                body: Box::new(Stmt::Return { token: ret, expression: None }),
                name: Some("g"),
            }),
            arguments: vec![Expr::Variable { token: f }],
        },
    }];
    assert_eq!(
        ast(&program),
        "  ╭─[Abstract Syntax Tree]\n\
         \x20 ├─ Expression\n\
         \x20 │  ╰─ Call\n\
         \x20 │     ├─ Expression\n\
         \x20 │     │  ╰─ Function g(a, b)\n\
         \x20 │     │     ╰─ Return\n\
         \x20 │     ╰─ Arguments\n\
         \x20 │        ├─ Variable (f)\n\
         ──╯\n"
    );
}

use bang::ast::{Expr, Stmt};
use bang::parser::parse;
use bang::tokens::{tokenize, TokenType};

fn assert_literal(expr: &Expr<'_>, value: &str, literal_type: TokenType) {
    match expr {
        Expr::Literal { token, .. } => {
            assert_eq!(token.value, value);
            assert_eq!(token.ttype, literal_type);
        }
        _ => panic!("Expected literal"),
    }
}

fn assert_variable(expr: &Expr<'_>, name: &str) {
    match expr {
        Expr::Variable { token } => {
            assert_eq!(token.value, name);
            assert_eq!(token.ttype, TokenType::Identifier);
        }
        _ => panic!("Expected literal"),
    }
}

#[test]
fn should_parse_if_without_else() {
    let tokens = tokenize("if (true)\n\tdoStuff\nelse\n\tdoOtherStuff\n");
    let statements = parse(&tokens).unwrap();

    if let Stmt::If {
        condition,
        then,
        otherwise: Some(otherwise),
        ..
    } = &statements[0]
    {
        assert_literal(condition, "true", TokenType::True);
        match (&**then, &**otherwise) {
            (Stmt::Block { body: then_body }, Stmt::Block { body: else_body }) => {
                assert_eq!(then_body.len(), 1);
                assert_eq!(else_body.len(), 1);
            }
            _ => panic!("Expected blocks"),
        }
    } else {
        panic!("Expected if statement");
    }
}

#[test]
fn token_parser_should_error_on_unknown_character() {
    let tokens = tokenize("&");
    let result = parse(&tokens);

    assert!(result.is_err());
    assert_eq!(result.unwrap_err().message, "Unknown character '&'");
}

#[test]
fn token_parser_should_parse_group() {
    let tokens = tokenize("('hello world')\n");
    let statements = parse(&tokens).unwrap();

    if let Stmt::Expression {
        expression: Expr::Group { expression, .. },
    } = &statements[0]
    {
        assert_literal(&**expression, "'hello world'", TokenType::String);
    } else {
        panic!("Expected group expression statement");
    }
}

#[test]
fn token_parser_should_parse_unary() {
    let tokens = tokenize("!false\n");
    let statements = parse(&tokens).unwrap();

    if let Stmt::Expression {
        expression: Expr::Unary { operator, expression },
    } = &statements[0]
    {
        assert_literal(&**expression, "false", TokenType::False);
        assert_eq!(operator.ttype, TokenType::Bang);
    } else {
        panic!("Expected unary expression statement");
    }
}

#[test]
fn token_parser_should_parse_binary() {
    let tokens = tokenize("10 + 5\n");
    let statements = parse(&tokens).unwrap();

    if let Stmt::Expression {
        expression: Expr::Binary { operator, left, right },
    } = &statements[0]
    {
        assert_literal(&**left, "10", TokenType::Number);
        assert_literal(&**right, "5", TokenType::Number);
        assert_eq!(operator.ttype, TokenType::Plus);
    } else {
        panic!("Expected binary expression statement");
    }
}

#[test]
fn token_parser_should_parse_call() {
    let tokens = tokenize("function(7, null)\n");
    let statements = parse(&tokens).unwrap();

    if let Stmt::Expression {
        expression: Expr::Call { expression, arguments, .. },
    } = &statements[0]
    {
        assert_literal(&arguments[0], "7", TokenType::Number);
        assert_literal(&arguments[1], "null", TokenType::Null);
        assert_variable(expression, "function");
    } else {
        panic!("Expected binary expression statement");
    }
}

#[test]
fn token_parser_should_parse_function() {
    let tokens = tokenize("() => null\n");
    let statements = parse(&tokens).unwrap();

    if let Stmt::Expression {
        expression: Expr::Function { parameters, body, .. },
    } = &statements[0]
    {
        assert_eq!(parameters.len(), 0);
        match &**body {
            Stmt::Return { expression: Some(expression), .. } => {
                assert_literal(expression, "null", TokenType::Null)
            }
            _ => panic!("Expected return statement"),
        }
    } else {
        panic!("Expected return statement");
    }
}

#[test]
fn token_parser_should_parse_variable_declaration_with_initalizer() {
    let tokens = tokenize("let a = null\n");
    let statements = parse(&tokens).unwrap();

    if let Stmt::Declaration {
        identifier,
        expression: Some(Expr::Literal { token, .. }),
        ..
    } = &statements[0]
    {
        assert_eq!(identifier.value, "a");
        assert_eq!(token.value, "null");
        assert_eq!(token.ttype, TokenType::Null);
    } else {
        panic!("Expected declaration statement");
    }
}

#[test]
fn token_parser_should_parse_variable_declaration_without_initalizer() {
    let tokens = tokenize("let b\n");
    let statements = parse(&tokens).unwrap();

    if let Stmt::Declaration {
        identifier,
        expression: None,
        ..
    } = &statements[0]
    {
        assert_eq!(identifier.value, "b");
    } else {
        panic!("Expected declaration statement");
    }
}

#[test]
fn token_parser_should_parse_return_with_value() {
    let tokens = tokenize("return value\n");
    let statements = parse(&tokens).unwrap();

    if let Stmt::Return {
        expression: Some(expression),
        ..
    } = &statements[0]
    {
        assert_variable(expression, "value");
    } else {
        panic!("Expected return statement");
    }
}

#[test]
fn token_parser_should_parse_return_without_value() {
    let tokens = tokenize("return\n");
    let statements = parse(&tokens).unwrap();

    if let Stmt::Return { expression: None, token } = &statements[0] {
        assert_eq!(token.value, "return");
    } else {
        panic!("Expected return statement");
    }
}

#[test]
fn token_parser_should_parse_while() {
    let tokens = tokenize("while(7) doStuff\n");
    let statements = parse(&tokens).unwrap();

    if let Stmt::While {
        condition: Expr::Literal { token: condition, .. },
        body,
        ..
    } = &statements[0]
    {
        assert_eq!(condition.value, "7");
        match &**body {
            Stmt::Expression { expression } => assert_variable(expression, "doStuff"),
            _ => panic!("Expected expression body"),
        }
    } else {
        panic!("Expected while statement");
    }
}

#[test]
fn token_parser_should_parse_if_else() {
    let tokens = tokenize("if (true) doStuff\n");
    let statements = parse(&tokens).unwrap();

    if let Stmt::If {
        condition,
        then,
        otherwise,
        ..
    } = &statements[0]
    {
        assert_literal(condition, "true", TokenType::True);
        match &**then {
            Stmt::Expression { expression } => assert_variable(expression, "doStuff"),
            _ => panic!("Expected expression body"),
        }
        assert!(otherwise.is_none());
    } else {
        panic!("Expected if statement");
    }
}

#[test]
fn token_parser_should_parse_block() {
    let tokens = tokenize("a\n\tdoStuff\n\totherStuff\n\tmoreStuff\n");
    let statements = parse(&tokens).unwrap();

    assert_eq!(statements.len(), 2);

    if let Stmt::Block { body } = &statements[1] {
        assert_eq!(body.len(), 3);
    } else {
        panic!("Expected block statement");
    }
}

#[test]
fn token_parser_names_declared_functions() {
    let tokens = tokenize("let f = (a, b) => a\n");
    let statements = parse(&tokens).unwrap();

    if let Stmt::Declaration {
        expression: Some(Expr::Function { name, parameters, .. }),
        ..
    } = &statements[0]
    {
        assert_eq!(*name, Some("f"));
        assert_eq!(parameters.len(), 2);
    } else {
        panic!("Expected function declaration");
    }
}

#[test]
fn token_parser_reports_invalid_assignment_targets() {
    let tokens = tokenize("1 + a = 2\n");
    let error = parse(&tokens).unwrap_err();
    assert_eq!(error.title, "Invalid Assignment Target");
    assert_eq!(error.lines, vec![1]);
}

#[test]
fn token_parser_reports_missing_brackets() {
    let tokens = tokenize("if true\n");
    let error = parse(&tokens).unwrap_err();
    assert_eq!(error.title, "Expected '('");
    assert_eq!(error.message, "but recieved 'true'");
}

#[test]
fn token_parser_strips_string_quotes() {
    let tokens = tokenize("'hi'\n");
    let statements = parse(&tokens).unwrap();
    if let Stmt::Expression {
        expression: Expr::Literal { value, .. },
    } = &statements[0]
    {
        assert_eq!(*value, "hi");
    } else {
        panic!("Expected literal");
    }
}

#[test]
fn token_parser_feeds_the_tree_printer() {
    let tokens = tokenize("let x = 1 + 2\n");
    let statements = parse(&tokens).unwrap();
    assert_eq!(
        bang::print::ast(&statements),
        "  ╭─[Abstract Syntax Tree]\n\
         \x20 ├─ Declaration (x)\n\
         \x20 │  ╰─ Binary (+)\n\
         \x20 │     ├─ Literal (1)\n\
         \x20 │     ╰─ Literal (2)\n\
         ──╯\n"
    );
}

#[test]
fn token_parser_checks_what_it_can_parse() {
    let tokens = tokenize("let a = 'x'\n");
    assert!(bang::parser::is_parsable(&tokens));
    let tokens = tokenize("'");
    assert!(!bang::parser::is_parsable(&tokens));
}

#[test]
fn parser_reads_a_lone_value_token_as_its_literal() {
    let tokens = tokenize("true");
    let statements = parse(&tokens).unwrap();
    assert_eq!(statements.len(), 1);
    match &statements[0] {
        Stmt::Expression { expression } => {
            assert_literal(expression, "true", TokenType::True);
            match expression {
                Expr::Literal { value, .. } => assert_eq!(*value, "true"),
                _ => panic!("Expected literal"),
            }
        }
        _ => panic!("Expected an expression statement"),
    }
}

#[test]
fn token_parser_reports_an_unknown_character_on_its_line() {
    let tokens = tokenize("&");
    let error = parse(&tokens).unwrap_err();
    assert_eq!(error.title, "Unexpected Character");
    assert_eq!(error.message, "Unknown character '&'");
    assert_eq!(error.lines, vec![1]);
}

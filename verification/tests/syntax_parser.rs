use bang::syntax::parser::is_parsable;
use bang::syntax::ast::{
    BinaryOperator, DeclarationIdentifier, Expr, LiteralType, Statement, Stmt, UnaryOperator,
};
use bang::syntax::parser::parse;
use bang::syntax::parser::parse_type;
use bang::syntax::ast::Type;

fn assert_literal(expr: &Expr<'_>, expected: &str, literal_type: LiteralType) {
    match expr {
        Expr::Literal { value, type_ } => {
            assert_eq!(*value, expected);
            assert_eq!(type_, &literal_type);
        }
        _ => panic!("Expected literal"),
    }
}

fn assert_variable(expr: &Expr<'_>, expected: &str) {
    match expr {
        Expr::Variable { name } => {
            assert_eq!(name, &expected);
        }
        _ => panic!("Expected literal"),
    }
}

fn unwrap_expression<'s>(statement: &'s Statement<'s>) -> &'s Expr<'s> {
    if let Stmt::Expression { expression } = &statement.stmt {
        &expression.expr
    } else {
        panic!("Expected expression");
    }
}

#[test]
fn parser_should_error_on_unknown_character() {
    let result = parse("&");

    assert!(result.is_err());
    assert_eq!(result.unwrap_err().message, "Unknown character '&'");
}

#[test]
fn parser_should_parse_group() {
    let statements = parse("('hello world')\n").unwrap();

    if let Expr::Group { expression } = unwrap_expression(&statements[0]) {
        assert_literal(&expression.expr, "hello world", LiteralType::String);
    } else {
        panic!("Expected group expression statement");
    }

    assert!(parse("(a)").is_ok());
    assert!(parse("(a").is_err());
    assert!(parse("(").is_err());
    assert!(parse("()").is_err());
}

#[test]
fn parser_should_parse_unary() {
    let statements = parse("!false\n").unwrap();

    if let Expr::Unary { operator, expression } = unwrap_expression(&statements[0]) {
        assert_literal(&expression.expr, "false", LiteralType::False);
        assert_eq!(*operator, UnaryOperator::Not);
    } else {
        panic!("Expected unary expression statement");
    }
}

#[test]
fn parser_should_parse_binary() {
    let statements = parse("10 + 5\n").unwrap();

    if let Expr::Binary { operator, left, right } = unwrap_expression(&statements[0]) {
        assert_literal(&left.expr, "10", LiteralType::Number);
        assert_literal(&right.expr, "5", LiteralType::Number);
        assert_eq!(*operator, BinaryOperator::Plus);
    } else {
        panic!("Expected binary expression statement");
    }
}

#[test]
fn parser_should_parse_call() {
    let statements = parse("function(7, null)\n").unwrap();

    if let Expr::Call { expression, arguments } = unwrap_expression(&statements[0]) {
        assert_literal(&arguments[0].expr, "7", LiteralType::Number);
        assert_literal(&arguments[1].expr, "null", LiteralType::Null);
        assert_variable(&expression.expr, "function");
    } else {
        panic!("Expected binary expression statement");
    }
}

#[test]
fn parser_should_parse_function() {
    let statements = parse("() => null\n").unwrap();

    if let Expr::Function { parameters, body, .. } = unwrap_expression(&statements[0]) {
        assert_eq!(parameters.len(), 0);

        if let Stmt::Return { expression: Some(expression) } = &body.stmt {
            assert_literal(&expression.expr, "null", LiteralType::Null);
        }
    } else {
        panic!("Expected return statement");
    }
}

#[test]
fn parser_should_parse_variable_declaration_with_initalizer() {
    let statements = parse("let a = null\n").unwrap();

    if let Stmt::Declaration { identifier, expression, .. } = &statements[0].stmt {
        let expr = expression.as_ref().unwrap();
        match identifier {
            DeclarationIdentifier::Variable(identifier) => assert_eq!(*identifier, "a"),
            _ => assert!(false),
        };
        assert_literal(&expr.expr, "null", LiteralType::Null);
    } else {
        panic!("Expected declaration statement");
    }
}

#[test]
fn should_parse_variable_declaration_list_destructuring() {
    let statements = parse("let [a, b] = null\n").unwrap();

    if let Stmt::Declaration { identifier, expression, .. } = &statements[0].stmt {
        let expr = expression.as_ref().unwrap();
        match identifier {
            DeclarationIdentifier::Ordered(identifier) => assert_eq!(identifier.len(), 2),
            _ => assert!(false),
        };
        assert_literal(&expr.expr, "null", LiteralType::Null);
    } else {
        panic!("Expected declaration statement");
    }
}

#[test]
fn parser_should_parse_variable_declaration_without_initalizer() {
    let statements = parse("let b\n").unwrap();

    if let Stmt::Declaration { identifier, expression: None, .. } = &statements[0].stmt {
        match identifier {
            DeclarationIdentifier::Variable(identifier) => assert_eq!(*identifier, "b"),
            _ => assert!(false),
        };
    } else {
        panic!("Expected declaration statement");
    }
}

#[test]
fn parser_should_parse_return_with_value() {
    let statements = parse("return value\n").unwrap();

    if let Stmt::Return { expression: Some(expression) } = &statements[0].stmt {
        assert_variable(&expression.expr, "value");
    } else {
        panic!("Expected return statement");
    }
}

#[test]
fn parser_should_parse_return_without_value() {
    let statements = parse("return\n").unwrap();

    if let Stmt::Return { expression: Some(_) } = &statements[0].stmt {
        panic!("Expected return statement");
    }
}

#[test]
fn should_parse_imports() {
    let statements = parse("from x import {}\n").unwrap();
    if let Stmt::Import { module, items } = &statements[0].stmt {
        assert_eq!(items.len(), 0);
        assert_eq!(module, &"x");
    } else {
        panic!("Not import statement")
    }

    let statements = parse("from './abc/ef.bang' import { g, h, i }\n").unwrap();
    if let Stmt::Import { module, items } = &statements[0].stmt {
        assert_eq!(items.len(), 3);
        assert_eq!(module, &"./abc/ef.bang");
    } else {
        panic!("Not import statement")
    }

    assert!(parse("from 'agd import {}\n").is_err())
}

#[test]
fn parser_should_parse_while() {
    let statements = parse("while(7) doStuff\n").unwrap();

    if let Stmt::While { condition, body } = &statements[0].stmt {
        assert_literal(&condition.expr, "7", LiteralType::Number);
        assert_variable(unwrap_expression(body), "doStuff");
    } else {
        panic!("Expected while statement");
    }
}

#[test]
fn parser_should_parse_if_else() {
    let statements = parse("if (true) doStuff\n").unwrap();

    if let Stmt::If { condition, then, otherwise } = &statements[0].stmt {
        assert_literal(&condition.expr, "true", LiteralType::True);
        assert_variable(unwrap_expression(then), "doStuff");
        assert!(otherwise.is_none());
    } else {
        panic!("Expected if statement");
    }
}

#[test]
fn should_parse_if_with_else() {
    let statements = parse("if (true)\n\tdoStuff\nelse\n\tdoOtherStuff\n").unwrap();

    if let Stmt::If { condition, otherwise, .. } = &statements[0].stmt {
        assert_literal(&condition.expr, "true", LiteralType::True);
        assert!(otherwise.is_some());
    } else {
        panic!("Expected if statement");
    }
}

#[test]
fn parser_should_parse_block() {
    let statements = parse("a\n\tdoStuff\n\totherStuff\n\tmoreStuff\n").unwrap();

    assert_eq!(statements.len(), 2);

    if let Stmt::Block { body } = &statements[1].stmt {
        assert_eq!(body.len(), 3);
    } else {
        panic!("Expected block statement");
    }
}

#[test]
fn should_parse_list() {
    let statements = parse("[44, null, 'hello']\n").unwrap();

    if let Expr::List { items } = unwrap_expression(&statements[0]) {
        assert_literal(&items[0].expr, "44", LiteralType::Number);
        assert_literal(&items[1].expr, "null", LiteralType::Null);
        assert_literal(&items[2].expr, "hello", LiteralType::String);
    } else {
        panic!("Expected list");
    }
}

#[test]
fn should_parse_index() {
    let statements = parse("a[5]\n").unwrap();

    if let Expr::Index { expression, index } = unwrap_expression(&statements[0]) {
        assert_literal(&index.expr, "5", LiteralType::Number);
        assert_variable(&expression.expr, "a");
    } else {
        panic!("Expected list");
    }

    assert!(parse("a[5").is_err());
}

#[test]
fn should_parse_format_string() {
    assert!(parse("'hello ${7}'").is_ok());
    assert!(parse("'hello ${   7 }'").is_ok());
    assert!(parse("'hello ${7} world'").is_ok());
    assert!(parse("'${7} world'").is_ok());
    assert!(parse("'${`hi`} world'").is_ok());
    assert!(parse("'${`hi`} \n world'").is_ok());
    assert!(parse("call('${7} world')").is_ok());
    assert!(parse("'hello ${ 7 } world ${false}!'").is_ok());
    assert!(parse("'Hello ${'I can interpolate'}, ${`multiple things`}'").is_ok());

    assert!(parse("'hello ${}'").is_err());
    assert!(parse("'hello ${7}").is_err());
    assert!(parse("`hello ${7}'").is_err());
    assert!(parse("'hello ${").is_err());
    assert!(parse("'hello ${'").is_err());
    assert!(parse("'hello ${77").is_err());
    assert!(parse("'Hello ${'I can interpolate'}, ${`multiple things`}").is_err());

    let with_import_after = "
let a = 'Hello ${'I can interpolate'}, ${`multiple things`}'
from maths import { sin }";
    assert_eq!(parse(with_import_after).unwrap().len(), 2);
}

#[test]
fn should_parse_import() {
    assert!(parse("from maths import { sin }").is_ok());
    assert!(parse("from maths import { sin, cos }").is_ok());

    assert!(parse("from maths import sin }").is_err());
    assert!(parse("from maths import { sin ").is_err());
    assert!(parse("from maths import { sin }sin() ").is_err());
}

#[test]
fn should_parse_type_groups() {
    assert!(parse("let a: (null | number)").is_ok());
    assert!(parse("let a: number").is_ok());

    assert!(parse("let a: (null").is_err());
}

#[test]
fn should_parse_type_generics() {
    assert!(parse("let a: <T>(T) -> T").is_ok());
    assert!(parse("let a: <T>number").is_ok());
    assert!(parse("let a: <T, S, G>() -> null").is_ok());
    assert!(parse("let a: <T, S, G,>() -> null").is_ok());

    assert!(parse("let a: <>() -> null").is_err());
    assert!(parse("let a: <null>() -> null").is_err());
}

#[test]
fn should_parse_type_param() {
    assert!(parse("let a: list(number)").is_ok());
    assert!(parse("let a: dict(string, number)").is_ok());
    assert!(parse("let a: dict(string, number,)").is_ok());
    assert!(parse("let a: list ( number ) ").is_ok());
    assert!(parse("let a: set(number?)").is_ok());
    assert!(parse("let a: magic(type | union)").is_ok());

    assert!(parse("let a: list number) = 3").is_err());
    assert!(parse("let a: list ()").is_err());
    assert!(parse("let a: list (number").is_err());
    assert!(parse("let a: list(number,,)").is_err());
    assert!(parse("let a: list(number,").is_err());
}

#[test]
fn should_parse_module_access() {
    assert!(parse("maths::PI").is_ok());
    assert!(parse("maths::sin(7)").is_ok());

    assert!(parse("(maths)::sin").is_err());
    assert!(parse("::sin").is_err());
    assert!(parse("maths::").is_err());
    assert!(parse("(x + 4)::max").is_err());
}

#[test]
fn should_parse_dictionary() {
    assert!(parse("{}").is_ok());
    assert!(parse("{ hello }").is_ok());
    assert!(parse("{ a, b, c, }").is_ok());
    assert!(parse("{ false: 5 }").is_ok());
    assert!(parse("{ false: 5, }").is_ok());
    assert!(parse("{ false: 5 + 4 }").is_ok());
    assert!(parse("{ hello: 5 + 4 }").is_ok());
    assert!(parse("{ 'false': 5 + 4 }").is_ok());
    assert!(parse("{ hello: }").is_err());
    assert!(parse("{ false }").is_err());
    assert!(parse("{ 3 }").is_err());
}

#[test]
fn parser_takes_sources_the_tokeniser_reads() {
    assert!(is_parsable("let a = 1\n"));
    assert!(is_parsable(""));
    assert!(!is_parsable("1."));
    assert!(!is_parsable("é"));
    assert!(is_parsable(&"\n".repeat(65534)));
    assert!(!is_parsable(&"\n".repeat(65535)));
}

#[test]
fn parser_spans_follow_the_source() {
    let source = "let a = 1\nprint(a + 2)\n";
    let statements = parse(source).unwrap();
    assert_eq!(statements.len(), 2);
    assert_eq!((statements[0].span.start, statements[0].span.end), (0, 9));
    assert_eq!((statements[1].span.start, statements[1].span.end), (10, 22));
    if let Stmt::Expression { expression } = &statements[1].stmt {
        if let Expr::Call { expression: callee, arguments } = &expression.expr {
            assert_eq!((callee.span.start, callee.span.end), (10, 15));
            assert_eq!((arguments[0].span.start, arguments[0].span.end), (16, 21));
        } else {
            panic!("Not a call");
        }
    } else {
        panic!("Not an expression statement");
    }
}

#[test]
fn parser_list_declaration_without_value_reaches_the_next_token() {
    let statements = parse("\nlet [a]").unwrap();
    assert_eq!(statements.len(), 1);
    assert_eq!((statements[0].span.start, statements[0].span.end), (1, 0));
}

#[test]
fn parser_reads_a_lone_value_as_one_statement() {
    assert_eq!(parse("42").unwrap().len(), 1);
    assert_eq!(parse("'text'").unwrap().len(), 1);
    let result = parse("'text");
    assert!(result.is_err());
    assert_eq!(result.unwrap_err().message, "Missing closing quote '");
}

#[test]
fn parser_reads_a_lone_type_name() {
    let annotation = parse_type("number").unwrap();
    assert!(matches!(annotation.type_, Type::Named("number")));
}

#[test]
fn parser_reads_a_lone_value_as_its_literal() {
    let statements = parse("3.00").unwrap();
    match &statements[0].stmt {
        Stmt::Expression { expression } => match &expression.expr {
            Expr::Literal { value, type_ } => {
                assert_eq!(*value, "3.00");
                assert!(matches!(type_, LiteralType::Number));
            },
            _ => panic!("not a literal"),
        },
        _ => panic!("not an expression statement"),
    }
    let statements = parse("'text'").unwrap();
    match &statements[0].stmt {
        Stmt::Expression { expression } => {
            assert!(matches!(expression.expr, Expr::Literal { value: "text", type_: LiteralType::String }));
        },
        _ => panic!("not an expression statement"),
    }
}

#[test]
fn parser_reads_two_values_joined_by_an_operator() {
    let statements = parse("3+4").unwrap();
    assert_eq!(statements.len(), 1);
    match &statements[0].stmt {
        Stmt::Expression { expression } => match &expression.expr {
            Expr::Binary { operator, left, right } => {
                assert!(matches!(operator, BinaryOperator::Plus));
                assert!(matches!(left.expr, Expr::Literal { value: "3", .. }));
                assert!(matches!(right.expr, Expr::Literal { value: "4", .. }));
            },
            _ => panic!("not a binary expression"),
        },
        _ => panic!("not an expression statement"),
    }
    let statements = parse("3||4").unwrap();
    match &statements[0].stmt {
        Stmt::Expression { expression } => {
            assert!(matches!(expression.expr, Expr::Binary { operator: BinaryOperator::Or, .. }));
        },
        _ => panic!("not an expression statement"),
    }
}

#[test]
fn parser_reads_a_lone_name_as_its_variable() {
    let statements = parse("count").unwrap();
    assert_eq!(statements.len(), 1);
    match &statements[0].stmt {
        Stmt::Expression { expression } => {
            assert!(matches!(expression.expr, Expr::Variable { name: "count" }));
            assert_eq!(expression.span.start, 0);
            assert_eq!(expression.span.end, 5);
        },
        _ => panic!("not an expression statement"),
    }
}

#[test]
fn parser_reports_an_unknown_character_where_it_stands() {
    let error = parse("&").unwrap_err();
    assert_eq!(error.title, "Unexpected Character");
    assert_eq!(error.message, "Unknown character '&'");
    assert_eq!(error.line, 1);
    assert_eq!((error.span.start, error.span.end), (0, 1));
}

#[test]
fn parser_reads_a_value_and_a_name_joined_by_an_operator() {
    let statements = parse("5 == a").unwrap();
    assert_eq!(statements.len(), 1);
    match &statements[0].stmt {
        Stmt::Expression { expression } => match &expression.expr {
            Expr::Binary { operator, left, right } => {
                assert!(matches!(operator, BinaryOperator::Equal));
                assert!(matches!(left.expr, Expr::Literal { value: "5", .. }));
                assert!(matches!(right.expr, Expr::Variable { name: "a" }));
            },
            _ => panic!("not a binary expression"),
        },
        _ => panic!("not an expression statement"),
    }
}

#[test]
fn parser_reads_a_type_applied_to_a_type() {
    let annotation = parse_type("list(number)").unwrap();
    match annotation.type_ {
        Type::Parameter(name, params) => {
            assert_eq!(name, "list");
            assert_eq!(params.len(), 1);
            assert!(matches!(params[0].type_, Type::Named("number")));
        },
        _ => panic!("not an applied type"),
    }
}

#[test]
fn parser_reads_a_simple_declaration() {
    let statements = parse("let a: number = true").unwrap();
    assert_eq!(statements.len(), 1);
    match &statements[0].stmt {
        Stmt::Declaration { identifier, type_, expression } => {
            assert!(matches!(identifier, DeclarationIdentifier::Variable("a")));
            assert!(matches!(type_.as_ref().unwrap().type_, Type::Named("number")));
            assert!(matches!(
                expression.as_ref().unwrap().expr,
                Expr::Literal { value: "true", type_: LiteralType::True }
            ));
        },
        _ => panic!("not a declaration"),
    }
    let statements = parse("let b = null && 5").unwrap();
    match &statements[0].stmt {
        Stmt::Declaration { type_, expression, .. } => {
            assert!(type_.is_none());
            assert!(matches!(
                expression.as_ref().unwrap().expr,
                Expr::Binary { operator: BinaryOperator::And, .. }
            ));
        },
        _ => panic!("not a declaration"),
    }
}

#[test]
fn parser_reads_an_assignment_of_a_pair() {
    let statements = parse("x = x + 1").unwrap();
    assert_eq!(statements.len(), 1);
    match &statements[0].stmt {
        Stmt::Expression { expression } => match &expression.expr {
            Expr::Assignment { identifier, expression } => {
                assert_eq!(*identifier, "x");
                assert!(matches!(expression.expr, Expr::Binary { operator: BinaryOperator::Plus, .. }));
            },
            _ => panic!("not an assignment"),
        },
        _ => panic!("not an expression statement"),
    }
}

#[test]
fn parser_reads_a_bracketed_name_and_refuses_open_brackets() {
    let statements = parse("(a)").unwrap();
    match &statements[0].stmt {
        Stmt::Expression { expression } => match &expression.expr {
            Expr::Group { expression } => {
                assert!(matches!(expression.expr, Expr::Variable { name: "a" }));
            },
            _ => panic!("not a group"),
        },
        _ => panic!("not an expression statement"),
    }
    assert!(parse("(a").is_err());
    assert!(parse("(").is_err());
    assert!(parse("()").is_err());
}

#[test]
fn parser_reads_an_import_with_an_alias() {
    let statements = parse("from maths import { sqrt as squareRoot }").unwrap();
    assert_eq!(statements.len(), 1);
    match &statements[0].stmt {
        Stmt::Import { module, items } => {
            assert_eq!(*module, "maths");
            assert_eq!(items.len(), 1);
            assert_eq!(items[0].name, "sqrt");
            assert_eq!(items[0].alias, Some("squareRoot"));
        },
        _ => panic!("not an import"),
    }
}

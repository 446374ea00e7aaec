use bang::linter::{lint, NoConstantCondition, NoNegativeZero, NoSelfAssign, NoUnreachable, NoYodaEqualityCheck};
use bang::syntax::parser::parse;

#[test]
fn linter_flags_constant_conditions() {
    let source = "if (true) a\nwhile (1 + 2) b\nif (x) c\n";
    let ast = parse(source).unwrap();
    let result = NoConstantCondition::check(source, &ast);
    assert_eq!(result.title, "No Constant Conditions");
    assert_eq!(
        result.message,
        "The control flow could be removed, as the condition is always true or false"
    );
    assert_eq!(result.lines, vec![1, 2]);
}

#[test]
fn linter_flags_yoda_equality() {
    let source = "5 == a\na == 5\n5 != b\n";
    let ast = parse(source).unwrap();
    let result = NoYodaEqualityCheck::check(source, &ast);
    assert_eq!(result.title, "No Yoda Equality");
    assert_eq!(result.lines, vec![1, 3]);
}

#[test]
fn linter_flags_negative_zero() {
    let source = "let a = -0\nlet b = -0.0\nlet c = -1\nlet d = -0_0\n";
    let ast = parse(source).unwrap();
    let result = NoNegativeZero::check(source, &ast);
    assert_eq!(result.title, "No Negative Zero");
    assert_eq!(result.lines, vec![1, 2, 4]);
}

#[test]
fn linter_flags_self_assignment() {
    let source = "a = a\na = b\n";
    let ast = parse(source).unwrap();
    let result = NoSelfAssign::check(source, &ast);
    assert_eq!(result.title, "No Self Assign");
    assert_eq!(result.lines, vec![1]);
}

#[test]
fn linter_flags_code_after_return() {
    let source = "let f = () ->\n  return 1\n  a\n  b\n";
    let ast = parse(source).unwrap();
    let result = NoUnreachable::check(source, &ast);
    assert_eq!(result.title, "No Unreachable Code");
    assert_eq!(result.lines, vec![3]);
}

#[test]
fn linter_reports_only_rules_with_issues() {
    let source = "if (true) a = a\n";
    let ast = parse(source).unwrap();
    let results = lint(source, &ast);
    let titles: Vec<&str> = results.iter().map(|r| r.title.as_str()).collect();
    assert_eq!(titles, vec!["No Constant Conditions", "No Self Assign"]);

    let clean = "let a = 1\n";
    let ast = parse(clean).unwrap();
    assert!(lint(clean, &ast).is_empty());
}

use bang::typechecker::types::{builtin_types, union_types, NEVER, NULL, NUMBER, STRING};
use bang::typechecker::is_checkable;
use bang::syntax::parser::parse;
use bang::typechecker::typecheck;

fn assert_correct(source: &str) {
    let ast = parse(source).unwrap();
    let result = typecheck(source, &ast);

    assert!(result.is_empty(), "{result:?}");
}

fn assert_fails(source: &str) {
    let ast = parse(source).unwrap();
    let result = typecheck(source, &ast);

    assert!(result.len() > 0, "Test Passes");
}

#[test]
fn literals() {
    assert_correct("let a: string = 'Hello, World!'");
    assert_correct("let a: number = 42");
    assert_correct("let a: boolean = true");
    assert_correct("let a: boolean = false");
    assert_correct("let a: null = null");
}

#[test]
fn declarations() {
    assert_correct("let a = 42\nlet b: number = a\n");
    assert_correct("let a = true\nlet b: boolean = a\n");
    assert_correct("let a = null\nlet b: null = a\n");
    assert_correct("let a\nlet b: null = a\n");
}

#[test]
fn typed_declarations() {
    assert_correct("let a: number = 42\nlet b: number = a\n");
    assert_correct("let a: boolean = true\nlet b: boolean = a\n");
    assert_correct("let a: null = null\nlet b: null = a\n");
    assert_correct("let a: null\nlet b: null = a\n");
    assert_correct("let a: null | null\nlet b: null = a\n");
    assert_correct("let a: null?\nlet b: null = a\n");
    assert_correct("let a: null | number\na = 5\na = null");
    assert_correct("let a: null | number\na = 5 && null\n");
    assert_fails("let a: number = true");
}

#[test]
fn variable_not_defined() {
    assert_fails("a\n");
    assert_fails("let a\nb\n");
}

#[test]
fn typechecker_grouping() {
    assert_correct("let a: number = (42)");
    assert_correct("let a: boolean = (true)");
    assert_correct("let a: string = ('string')");
}

#[test]
fn unary() {
    assert_correct("let a: number = -42");
    assert_correct("let a: boolean = !true");
    assert_correct("let a: boolean = !false");
    assert_correct("let a: boolean = !'string'");
    assert_correct("let a: boolean = !7");

    assert_fails("-true");
    assert_fails("-'hello'");
    assert_fails("-null");
}

#[test]
fn assignment() {
    assert_correct("let a = 42\nlet b: number = a = 5\n");
    assert_correct("let a = true\nlet b: boolean = a = false\n");
    assert_correct("let a = null\nlet b: null = a = null\n");
    assert_correct("let a\nlet b: null = a = null\n");

    assert_fails("b = 5\n");
    assert_fails("let a = 42\na = false\n");
    assert_fails("let a = false\na = 42\n");
    assert_fails("let a = 'hello'\na = 15\n");
}

#[test]
fn if_and_while() {
    assert_correct(
      "
let a = 5
if (a)
  a = 10
else
  a = 20

let b: number  = a
",
    );
    assert_correct(
      "
let a = 5
while (a)
  a = 0

let b: number = a
",
    );
    assert_fails(
      "
let a = 5
if (b)
  a = 10

let b: number = a
",
    );
}

#[test]
fn binary() {
    assert_correct("let a: number = 5 - 5");
    assert_correct("let a: number = 5 / 5");
    assert_correct("let a: number = 5 * 5");
    assert_correct("let a: boolean = 5 == 5");
    assert_correct("let a: boolean = 5 != 5");
    assert_correct("let a: boolean = 'hello' == 'world'");
    assert_correct("let a: boolean = 'hello' != 'world'");
    assert_correct("let a: boolean = 5 > 5");
    assert_correct("let a: boolean = 5 < 5");
    assert_correct("let a: boolean = 'a' >= 'b'");
}

#[test]
fn plus() {
    assert_correct("let a: number = 5 + 5");
    assert_correct("let a: string = 'hello' + 'world'");
    assert_correct("let a = 'hello' && 5\nlet b: number | string = a + a\n");
    assert_fails("5 + ''");
    assert_fails("'' + 5");
    assert_fails("5 + false");
    assert_fails("null + 5");
    assert_fails("null + true");
}

#[test]
fn minus() {
    assert_fails("'a' - 8");
    assert_fails("8 - 'a'");
    assert_fails("false - null");
}

#[test]
fn comparison() {
    assert_fails("5 == 'a'");
    assert_fails("null != false");
    assert_fails("5 == false");
}

#[test]
fn nullish_coelesing() {
    assert_correct("let a: boolean = null ?? false");
    assert_correct("let a: string = 'hello' ?? null");
    assert_correct("let a: number = 5 ?? ''");
    assert_correct("let a: null = null ?? null");
    assert_correct("let a: number = 5 ?? 6");
    assert_correct("let a: number  = 5 ?? null");
    assert_correct("let a: number = null ?? 5");
    assert_correct("let a: number = 5 ?? false");
}

#[test]
fn typechecker_and() {
    assert_correct("let a: number = 5 && 6");
    assert_correct("let a: number | null = 5 && null");
    assert_correct("let a: number? = 5 && null");
    assert_correct("let a: null = null && 5");
    assert_correct("let a: number | boolean = 5 && false");
    assert_correct("let a: boolean  = false && 5");
    assert_correct(
        "
let boolean = (b: boolean) => b
let func = (a: boolean?) ->
  if (a == true && a == false) boolean(a)

",
    );
}

#[test]
fn typechecker_or() {
    assert_correct("let a: number = 5 || 6");
    assert_correct("let a: number | null = 5 || null");
    assert_correct("let a: number = null || 5");
    assert_correct("let a: number | boolean = 5 || false");
    assert_correct("let a: number  = false || 5");
    assert_correct(
        "
let boolean = (b: boolean) => b
let func = (a: boolean?) ->
  if (a == true || a == false) boolean(a)

",
    );
}

#[test]
fn call_not_callable() {
    assert_fails("5()");
    assert_fails("'hello'()");
    assert_fails("true()");
    assert_fails("null()");
}

#[test]
fn call() {
    assert_correct("let a: null = (() => null)()");
    assert_correct("let b: string = (() => 'hello')()");
    assert_correct("let c: number = ((a: number, b: number) => a + b)(7, 8)");
    assert_correct(
      "
let not = (x: any) => !x
let a: boolean = not(true)
let b: boolean = not(false)
let c: boolean = not(null)
let d: boolean = not(3.5)
      ",
    );
    assert_fails("((a: number, b: number) => a + b)(7)");
    assert_fails("((a: number, b: number) => a + b)(7, 8, 9)");
    assert_fails("((a: number, b: number) => a + b)(7, false)");
    assert_fails("((a: number, b: number) => a + b)(7, null)");
}

#[test]
fn functions() {
    assert_correct("let func: (number, number) -> number = (a: number, b: number) => a + b");
    assert_correct("let a: ((any) -> null) | ((any) -> string) = print");
    assert_correct("let a: ((any) -> null) | ((any) -> string) = type");
    assert_correct("let p: (any) -> null = print\nlet t: (any) -> string = type\n");
    assert_correct(
      "let func: (number | string) -> number | string = (a: number | string | boolean) => 7",
    );
    assert_fails("let func: (number, string) -> number  = (a: number, b: string) => a || b");
}

#[test]
fn recursive() {
    assert_correct(
      "
let fib_recursive = (n: number) -> number
  if (n <= 2)
    if (n == 0) return 0
    return n - 1
  else return fib_recursive(n - 1) + fib_recursive(n - 2)

let a: number = fib_recursive(25)
",
    );
}

#[test]
fn typechecker_returns() {
    assert_correct(
      "
let numbers = (n: number) -> number
  if (n <= 2)
    if (n == 0) return 0
    return n - 1
  else return n * 5

let a: number = numbers(25)
",
    );
    assert_correct(
      "
let x = (n: number) ->
  let a = 7

let a: null = x(6)
",
    );
    assert_fails(
      "
let numbers = (n: number) -> number
  if (n <= 2)
    if (n == 0) return 0
    return n - 1
  else return n * 5 || 'hello'

numbers(25)
  ",
    );
}

#[test]
fn pipeline() {
    assert_correct(
      "
let add_one = (a: number) => a + 1

let a:number = 3 >> add_one
",
    );
    assert_correct(
      "
let add_one = (a: number) => a + 1

let a:number = 3 >> add_one()
",
    );
    assert_correct(
      "
let add = (a: number, b: number) => a + b
let multiply = (a: number, b: number) => a * b

let a:number = 3 >> add(4) >> multiply(5)
    ",
    );
}

#[test]
fn redefined_variables() {
    assert_correct(
      "
let a = false
  let a = 5
  a = -a
",
    );
}

#[test]
fn not_equals() {
      assert_correct(
        "
let func = (a: number?) ->
  if (a != null) -a
",
      );
    }

#[test]
fn equals() {
      assert_correct(
        "
let boolean = (b: boolean) => b
let func = (a: boolean?) ->
  if (a == true) boolean(a)

",
      );
    }

#[test]
fn multiple_and() {
      assert_correct(
        "
let boolean = (b: boolean) => b
let func = (a: boolean?, b: boolean?) ->
  if (a == true && b == false)
    boolean(a)
    boolean(b)
",
      );
    }

#[test]
fn multiple_or() {
      assert_fails(
        "
let boolean = (b: boolean) => b

let func = (a: boolean?, b: boolean?) ->
  if (a == true || b == false)
    boolean(a)
    boolean(b)

func(true, false)
",
      );
    }

#[test]
fn else_() {
      assert_correct(
        "
let boolean = (b: boolean) => b
let n = (n: null) => null

let func = (a: boolean?) ->
  if (a == true || a == false) boolean(a)
  else n(a)
",
      );
    }

#[test]
fn typechecker_diagnostics_name_a_line_of_the_source() {
    let source = "let a: number = 'x'\nlet b: string = 2\n";
    let ast = bang::syntax::parser::parse(source).unwrap();
    let errors = bang::typechecker::typecheck(source, &ast);
    assert_eq!(errors.len(), 2);
    assert_eq!(errors[0].title, "Expected Types to Match");
    assert_eq!(errors[0].lines, vec![1]);
    assert_eq!(errors[1].lines, vec![2]);
}

#[test]
fn typechecker_takes_plain_programs() {
    let source = "let a = 1\nif (a == 1 or a == 2)\n  a = 3\nreturn\n";
    let ast = parse(source).unwrap();
    assert!(is_checkable(&ast));
    let source = "let f = (a) => a + 1\nf(1)\n";
    let ast = parse(source).unwrap();
    assert!(is_checkable(&ast));
    let ast = parse("return\n").unwrap();
    assert!(is_checkable(&ast));
    assert!(typecheck("return\n", &ast).is_empty());
}

#[test]
fn typechecker_refuses_what_it_does_not_take() {
    let ast = parse("return 1\n").unwrap();
    assert!(!is_checkable(&ast));
    let ast = parse("from maths import { sin }\n").unwrap();
    assert!(!is_checkable(&ast));
    let ast = parse("let a = 1\nif (a > 1 or a == 2)\n  a = 3\n").unwrap();
    assert!(!is_checkable(&ast));
}

#[test]
fn typechecker_reports_an_unknown_variable_first() {
    let source = "missing\nlet a = 1\n";
    let ast = parse(source).unwrap();
    let result = typecheck(source, &ast);
    assert!(!result.is_empty());
    assert_eq!(result[0].title, "Unknown Variable");
    assert_eq!(result[0].message, "Variable 'missing' is undefined");
    assert_eq!(result[0].lines, vec![1]);
}

#[test]
fn typechecker_reports_each_unknown_variable() {
    let source = "a\nlet b = 1\nb\nc\n";
    let ast = parse(source).unwrap();
    let result = typecheck(source, &ast);
    assert_eq!(result.len(), 2);
    assert_eq!(result[0].message, "Variable 'a' is undefined");
    assert_eq!(result[0].lines, vec![1]);
    assert_eq!(result[1].title, "Unknown Variable");
    assert_eq!(result[1].message, "Variable 'c' is undefined");
    assert_eq!(result[1].lines, vec![4]);
}

#[test]
fn typechecker_checks_both_sides_of_arithmetic() {
    let source = "'a' - true\n";
    let ast = parse(source).unwrap();
    let result = typecheck(source, &ast);
    assert_eq!(result.len(), 2);
    assert_eq!(result[0].title, "Expected Types to Match");
    assert_eq!(result[0].message, "Expected type 'number' but received 'string'");
    assert_eq!(result[1].message, "Expected type 'number' but received 'true'");
    assert!(typecheck("2 * 3\n", &parse("2 * 3\n").unwrap()).is_empty());
}

#[test]
fn typechecker_reports_a_declaration_that_does_not_fit() {
    let source = "let a: string = 5\n";
    let ast = parse(source).unwrap();
    let result = typecheck(source, &ast);
    assert_eq!(result.len(), 1);
    assert_eq!(result[0].title, "Expected Types to Match");
    assert_eq!(result[0].message, "Expected type 'string' but received 'number'");
    assert_eq!(result[0].lines, vec![1]);
    let source = "let a: number = true";
    let result = typecheck(source, &parse(source).unwrap());
    assert_eq!(result.len(), 1);
    assert_eq!(result[0].message, "Expected type 'number' but received 'false | true'");
}

#[test]
fn typechecker_checks_the_right_side_against_the_left() {
    let cases = [
        ("'a' + 1\n", "Expected type 'string' but received 'number'"),
        ("1 < 'b'\n", "Expected type 'number' but received 'string'"),
        ("1 == 'a'\n", "Expected type 'number' but received 'string'"),
        ("-'x'\n", "Expected type 'number' but received 'string'"),
    ];
    for (source, message) in cases {
        let result = typecheck(source, &parse(source).unwrap());
        assert_eq!(result.len(), 1, "{source}");
        assert_eq!(result[0].title, "Expected Types to Match");
        assert_eq!(result[0].message, message);
    }
    assert!(typecheck("'a' + 'b'\n", &parse("'a' + 'b'\n").unwrap()).is_empty());
}

#[test]
fn typechecker_reports_the_checks_of_a_straight_line_program_in_order() {
    let source = "let a = 1\nlet b: string = a + 2\n-'x' == a\n";
    let result = typecheck(source, &parse(source).unwrap());
    assert_eq!(result.len(), 2);
    assert_eq!(result[0].message, "Expected type 'string' but received 'number'");
    assert_eq!(result[0].lines, vec![2]);
    assert_eq!(result[1].message, "Expected type 'number' but received 'string'");
    assert_eq!(result[1].lines, vec![3]);
}

#[test]
fn union_ignores_never_members() {
    let mut with_never = builtin_types();
    let mut without = builtin_types();
    let a = union_types(&mut with_never, &vec![NUMBER, NEVER, STRING]);
    let b = union_types(&mut without, &vec![NUMBER, STRING]);
    assert_eq!(a, b);
    assert_eq!(with_never.len(), without.len());
    let mut table = builtin_types();
    assert_eq!(union_types(&mut table, &vec![NEVER, NULL, NEVER]), NULL);
    assert_eq!(union_types(&mut table, &vec![NEVER]), NEVER);
}

#[test]
fn nullish_with_a_left_side_that_cannot_be_null() {
    assert_correct("let a: number = 5 ?? 'x'\n");
    assert_fails("let a: string = 5 ?? 'x'\n");
}

#[test]
fn nullish_on_null_takes_the_right_side() {
    assert_correct("let a: number = null ?? 5\n");
    assert_fails("let a: string = null ?? 5\n");
}

use bang::chunk::{Chunk, Constant, OpCode};
use bang::compiler::{compile, is_compilable};
use bang::diagnostic::Diagnostic;
use bang::syntax::parser::parse;

fn compile_source(source: &str) -> Result<Chunk, Diagnostic> {
    let ast = parse(source).unwrap();
    assert!(is_compilable(&ast));
    compile(source, &ast)
}

fn lines_of(chunk: &Chunk) -> Vec<u16> {
    (0..chunk.code.len()).map(|i| chunk.get_line_number(i)).collect()
}

fn number(constant: &Constant) -> &str {
    match constant {
        Constant::Number(text) => text,
        _ => panic!("Expected a number"),
    }
}

fn text(constant: &Constant) -> &str {
    match constant {
        Constant::String(text) => text,
        _ => panic!("Expected a string"),
    }
}

#[test]
fn compiles_globals() {
    let chunk = compile_source("let a = 1\nlet b = a + 2\n").unwrap();
    assert_eq!(
        chunk.code,
        vec![
            OpCode::Constant(0),
            OpCode::DefineGlobal(1),
            OpCode::GetGlobal(1),
            OpCode::Constant(2),
            OpCode::Add,
            OpCode::DefineGlobal(3),
            OpCode::Return,
        ]
    );
    assert_eq!(chunk.constants.len(), 4);
    assert_eq!(number(&chunk.constants[0]), "1");
    assert_eq!(text(&chunk.constants[1]), "a");
    assert_eq!(number(&chunk.constants[2]), "2");
    assert_eq!(text(&chunk.constants[3]), "b");
    assert_eq!(chunk.name, "<script>");
    assert_eq!(lines_of(&chunk), vec![1, 1, 2, 2, 2, 2, 2]);
}

#[test]
fn shares_equal_constants() {
    let chunk = compile_source("let a = 1.0\nlet b = 1\nlet c = a\n").unwrap();
    assert_eq!(
        chunk.code,
        vec![
            OpCode::Constant(0),
            OpCode::DefineGlobal(1),
            OpCode::Constant(0),
            OpCode::DefineGlobal(2),
            OpCode::GetGlobal(1),
            OpCode::DefineGlobal(3),
            OpCode::Return,
        ]
    );
    assert_eq!(chunk.constants.len(), 4);
    assert_eq!(number(&chunk.constants[0]), "1");
}

#[test]
fn compiles_operators() {
    let chunk = compile_source("1 <= 2\n!true\n").unwrap();
    assert_eq!(
        chunk.code,
        vec![
            OpCode::Constant(0),
            OpCode::Constant(1),
            OpCode::Greater,
            OpCode::Not,
            OpCode::Pop,
            OpCode::True,
            OpCode::Not,
            OpCode::Pop,
            OpCode::Return,
        ]
    );
}

#[test]
fn compiles_locals_in_blocks() {
    let chunk = compile_source("if (true)\n  let x = 1\n  x\n").unwrap();
    assert_eq!(
        chunk.code,
        vec![
            OpCode::True,
            OpCode::JumpIfFalse(6),
            OpCode::Pop,
            OpCode::Constant(0),
            OpCode::GetLocal(0),
            OpCode::Pop,
            OpCode::Pop,
            OpCode::Pop,
            OpCode::Return,
        ]
    );
    assert_eq!(lines_of(&chunk), vec![1, 1, 1, 2, 3, 3, 3, 1, 1]);
}

#[test]
fn compiles_logical_operators() {
    let chunk = compile_source("a and b\n").unwrap();
    assert_eq!(
        chunk.code,
        vec![
            OpCode::GetGlobal(0),
            OpCode::JumpIfFalse(3),
            OpCode::Pop,
            OpCode::GetGlobal(1),
            OpCode::Pop,
            OpCode::Return,
        ]
    );
    let chunk = compile_source("a ?? b\n").unwrap();
    assert_eq!(
        chunk.code,
        vec![
            OpCode::GetGlobal(0),
            OpCode::JumpIfNull(2),
            OpCode::Jump(3),
            OpCode::Pop,
            OpCode::GetGlobal(1),
            OpCode::Pop,
            OpCode::Return,
        ]
    );
}

#[test]
fn compiles_while_loops() {
    let chunk = compile_source("while (a)\n  a = false\n").unwrap();
    assert_eq!(
        chunk.code,
        vec![
            OpCode::GetGlobal(0),
            OpCode::JumpIfFalse(6),
            OpCode::Pop,
            OpCode::False,
            OpCode::SetGlobal(0),
            OpCode::Pop,
            OpCode::Loop(6),
            OpCode::Pop,
            OpCode::Return,
        ]
    );
}

#[test]
fn compiles_functions() {
    let chunk = compile_source("let add = (a, b) => a + b\n").unwrap();
    // The scope of the parameters ends in the enclosing chunk.
    assert_eq!(
        chunk.code,
        vec![
            OpCode::Pop,
            OpCode::Pop,
            OpCode::Constant(0),
            OpCode::DefineGlobal(1),
            OpCode::Return,
        ]
    );
    match &chunk.constants[0] {
        Constant::Function { arity, chunk, .. } => {
            assert_eq!(*arity, 2);
            assert_eq!(
                chunk.code,
                vec![
                    OpCode::GetLocal(0),
                    OpCode::GetLocal(1),
                    OpCode::Add,
                    OpCode::Return,
                    OpCode::Null,
                    OpCode::Return,
                ]
            );
        }
        _ => panic!("Expected a function"),
    }
}

#[test]
fn compiles_pipelines() {
    let chunk = compile_source("1 >> f(2)\n").unwrap();
    assert_eq!(
        chunk.code,
        vec![
            OpCode::GetGlobal(0),
            OpCode::Constant(1),
            OpCode::Constant(2),
            OpCode::Call(2),
            OpCode::Pop,
            OpCode::Return,
        ]
    );
    let chunk = compile_source("1 >> f\n").unwrap();
    assert_eq!(
        chunk.code,
        vec![
            OpCode::GetGlobal(0),
            OpCode::Constant(1),
            OpCode::Call(1),
            OpCode::Pop,
            OpCode::Return,
        ]
    );
}

#[test]
fn compiles_builtin_imports() {
    let chunk = compile_source("from maths import { PI, floor }\n").unwrap();
    assert_eq!(
        chunk.code,
        vec![
            OpCode::Constant(0),
            OpCode::DefineGlobal(1),
            OpCode::Constant(2),
            OpCode::DefineGlobal(3),
            OpCode::Return,
        ]
    );
    match &chunk.constants[0] {
        Constant::Builtin { module, item } => {
            assert_eq!(module, "maths");
            assert_eq!(item, "PI");
        }
        _ => panic!("Expected a builtin"),
    }
}

#[test]
fn errors_on_unknown_builtin() {
    let error = compile_source("from maths import { nope }\n").unwrap_err();
    assert_eq!(error.title, "Builtin Not Found");
    assert_eq!(error.message, "Could not find value in module 'maths'");
    assert_eq!(error.lines, vec![1]);
}

#[test]
fn errors_on_redefined_local() {
    let error = compile_source("if (true)\n  let a = 1\n  let a = 2\n").unwrap_err();
    assert_eq!(error.title, "Variable Already Exists");
    assert_eq!(error.message, "Variable 'a' has been defined already");
    assert_eq!(error.lines, vec![3]);
}

#[test]
fn globals_can_be_redefined() {
    assert!(compile_source("let a = 1\nlet a = 2\n").is_ok());
}

#[test]
fn errors_on_too_many_arguments() {
    let mut source = String::from("f(1");
    for _ in 0..256 {
        source.push_str(", 1");
    }
    source.push_str(")\n");
    let error = compile_source(&source).unwrap_err();
    assert_eq!(error.title, "Too Many Arguments");
    assert_eq!(error.message, "There is a limit of 255 arguments for a function");
    assert_eq!(error.lines, vec![1]);
}

#[test]
fn errors_on_too_many_parameters() {
    let mut source = String::from("let f = (p");
    for i in 0..256 {
        source.push_str(&format!(", p{}", i));
    }
    source.push_str(") => 1\n");
    let error = compile_source(&source).unwrap_err();
    assert_eq!(error.title, "Too Many Parameters");
}

#[test]
fn stops_at_the_first_failing_statement() {
    let error =
        compile_source("from maths import { nope }\nif (true)\n  let a = 1\n  let a = 2\n")
            .unwrap_err();
    assert_eq!(error.title, "Builtin Not Found");
}

#[test]
fn refuses_lists() {
    let ast = parse("[1, 2]\n").unwrap();
    assert!(!is_compilable(&ast));
}

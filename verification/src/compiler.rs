//! The compiler from the syntax tree to bytecode: each statement and
//! expression becomes instructions in a chunk, literals and global names
//! become entries of its constant table, functions become chunks of their
//! own, and variables declared inside a block or a function live in slots
//! of the stack.
use crate::chunk::{
    BuilderModel, Chunk, ChunkBuilder, ChunkModel, Constant, ConstantModel, OpCode,
    constant_index, empty_builder, with_constant, written,
};
use crate::diagnostic::Diagnostic;
use crate::formatter::number_text;
use crate::syntax::ast::{
    BinaryOperator, DeclarationIdentifier, Expr, Expression, ImportItem, LiteralType, Parameter,
    Span, Statement, Stmt, UnaryOperator, line_at, lines_fit,
};
use crate::syntax::tokens::LineNumber;
use crate::text::bytes_of;
use crate::text::same_chars as eq;
use vstd::prelude::*;

verus! {

/// What can go wrong while compiling.
#[derive(Clone, Copy, PartialEq, Eq, Structural)]
pub enum Error {
    TooBigJump,
    TooManyConstants,
    TooManyArguments,
    TooManyParameters,
    VariableAlreadyExists,
    BuiltinNotFound,
}

impl Error {
    pub open spec fn spec_title(self) -> Seq<char> {
        match self {
            Error::TooBigJump => "Too Big Jump"@,
            Error::TooManyConstants => "Too Many Constants"@,
            Error::TooManyArguments => "Too Many Arguments"@,
            Error::TooManyParameters => "Too Many Parameters"@,
            Error::VariableAlreadyExists => "Variable Already Exists"@,
            Error::BuiltinNotFound => "Builtin Not Found"@,
        }
    }

    pub open spec fn spec_message(self, value: Seq<char>) -> Seq<char> {
        match self {
            Error::TooBigJump | Error::TooManyConstants => "This is likely an error with the language"@,
            Error::TooManyArguments | Error::TooManyParameters => "There is a limit of 255 arguments for a function"@,
            Error::VariableAlreadyExists => "Variable '"@ + value + "' has been defined already"@,
            Error::BuiltinNotFound => "Could not find value in module '"@ + value + "'"@,
        }
    }
}

/// A diagnostic as a mathematical value.
#[verifier::ext_equal]
pub struct DiagModel {
    pub title: Seq<char>,
    pub message: Seq<char>,
    pub lines: Seq<LineNumber>,
}

pub open spec fn diag_model(d: Diagnostic) -> DiagModel {
    DiagModel { title: d.title@, message: d.message@, lines: d.lines@ }
}

/// Everything the compiler holds between two steps: the chunk being
/// written, those of the enclosing functions, the local variables with the
/// scope depth each was declared at, the current depth, and the last error.
#[verifier::ext_equal]
pub struct CState {
    pub chunk: BuilderModel,
    pub stack: Seq<BuilderModel>,
    pub locals: Seq<(Seq<char>, u8)>,
    pub depth: u8,
    pub error: Option<DiagModel>,
}

/// How a global variable is used.
#[derive(Clone, Copy, PartialEq, Eq, Structural)]
pub enum GlobalAccess {
    Define,
    Get,
    Assign,
}

pub open spec fn global_op(access: GlobalAccess, index: u8) -> OpCode {
    match access {
        GlobalAccess::Define => OpCode::DefineGlobal(index),
        GlobalAccess::Get => OpCode::GetGlobal(index),
        GlobalAccess::Assign => OpCode::SetGlobal(index),
    }
}

/// The line a span starts on.
pub open spec fn line_of(src: Seq<u8>, span: Span) -> LineNumber {
    line_at(src, span.start as int) as LineNumber
}

/// The state after `op` is written, on the line `span` starts on.
pub open spec fn emit(src: Seq<u8>, s: CState, span: Span, op: OpCode) -> CState {
    CState { chunk: written(s.chunk, op, line_of(src, span)), ..s }
}

/// The state after `op` is written on the line of the instruction before.
pub open spec fn emit_blank(s: CState, op: OpCode) -> CState {
    CState { chunk: written(s.chunk, op, 0), ..s }
}

/// The state after an error of `kind` about `value`, at `span`.
pub open spec fn fail(src: Seq<u8>, s: CState, kind: Error, span: Span, value: Seq<char>) -> CState {
    CState {
        error: Some(
            DiagModel {
                title: kind.spec_title(),
                message: kind.spec_message(value),
                lines: seq![line_of(src, span)],
            },
        ),
        ..s
    }
}

/// The state after `c` is added to the constants and loaded.
pub open spec fn emit_constant(src: Seq<u8>, s: CState, span: Span, c: ConstantModel) -> CState {
    let i = constant_index(s.chunk, c);
    let s1 = CState { chunk: with_constant(s.chunk, c), ..s };
    if i < 256 {
        emit(src, s1, span, OpCode::Constant(i as u8))
    } else if i < 65536 {
        emit(src, s1, span, OpCode::ConstantLong(i as u16))
    } else {
        fail(src, s1, Error::TooManyConstants, span, Seq::empty())
    }
}

/// The state after the global variable `name` is used.
pub open spec fn emit_global(
    src: Seq<u8>,
    s: CState,
    span: Span,
    access: GlobalAccess,
    name: Seq<char>,
) -> CState {
    let c = ConstantModel::Text(name);
    let i = constant_index(s.chunk, c);
    let s1 = CState { chunk: with_constant(s.chunk, c), ..s };
    if i < 256 {
        emit(src, s1, span, global_op(access, i as u8))
    } else {
        fail(src, s1, Error::TooManyConstants, span, Seq::empty())
    }
}

/// A jump instruction with its distance replaced.
pub open spec fn with_offset(op: OpCode, offset: u16) -> OpCode {
    match op {
        OpCode::Jump(_) => OpCode::Jump(offset),
        OpCode::JumpIfFalse(_) => OpCode::JumpIfFalse(offset),
        OpCode::JumpIfNull(_) => OpCode::JumpIfNull(offset),
        _ => op,
    }
}

/// The state after the jump at `p` is made to land after the last
/// instruction written.
pub open spec fn patch(src: Seq<u8>, s: CState, span: Span, p: int) -> CState {
    let jump = s.chunk.code.len() - p;
    let s1 = if jump > 65535 {
        fail(src, s, Error::TooBigJump, span, Seq::empty())
    } else {
        s
    };
    CState {
        chunk: BuilderModel {
            code: s1.chunk.code.update(p, with_offset(s1.chunk.code[p], (jump % 65536) as u16)),
            ..s1.chunk
        },
        ..s1
    }
}

/// How many locals at the end of `locals` were declared at depth `d`.
pub open spec fn trailing(locals: Seq<(Seq<char>, u8)>, d: u8) -> nat
    decreases locals.len(),
{
    if locals.len() > 0 && locals.last().1 == d {
        1 + trailing(locals.drop_last(), d)
    } else {
        0
    }
}

/// The builder after `n` `Pop`s on the line of the instruction before.
pub open spec fn pops(b: BuilderModel, n: nat) -> BuilderModel
    decreases n,
{
    if n == 0 {
        b
    } else {
        written(pops(b, (n - 1) as nat), OpCode::Pop, 0)
    }
}

pub open spec fn begin_scope(s: CState) -> CState {
    CState { depth: (s.depth + 1) as u8, ..s }
}

/// The state after a block's scope ends: its locals leave the stack.
pub open spec fn end_scope(s: CState) -> CState {
    let n = trailing(s.locals, s.depth);
    CState {
        chunk: pops(s.chunk, n),
        locals: s.locals.subrange(0, s.locals.len() - n),
        depth: (s.depth - 1) as u8,
        ..s
    }
}

/// The slot of the innermost local named `name`, or -1.
pub open spec fn last_local(locals: Seq<(Seq<char>, u8)>, name: Seq<char>) -> int
    decreases locals.len(),
{
    if locals.len() == 0 {
        -1
    } else if locals.last().0 == name {
        locals.len() - 1
    } else {
        last_local(locals.drop_last(), name)
    }
}

/// The state after a variable `name` is declared: a new local inside a
/// scope, else a global.
pub open spec fn define(src: Seq<u8>, s: CState, name: Seq<char>, span: Span) -> CState {
    if s.depth > 0 {
        if s.locals.contains((name, s.depth)) {
            fail(src, s, Error::VariableAlreadyExists, span, name)
        } else {
            CState { locals: s.locals.push((name, s.depth)), ..s }
        }
    } else {
        emit_global(src, s, span, GlobalAccess::Define, name)
    }
}

/// The items of the built-in module `maths`.
pub open spec fn maths_item(item: Seq<char>) -> bool {
    item == "PI"@ || item == "E"@ || item == "INFINITY"@ || item == "floor"@ || item == "ceil"@
        || item == "round"@ || item == "abs"@ || item == "sqrt"@ || item == "cbrt"@ || item
        == "exp"@ || item == "pow"@ || item == "log"@ || item == "ln"@ || item == "sin"@ || item
        == "cos"@ || item == "tan"@ || item == "asin"@ || item == "acos"@ || item == "atan"@
        || item == "sinh"@ || item == "cosh"@ || item == "tanh"@ || item == "asinh"@ || item
        == "acosh"@ || item == "atanh"@ || item == "isNan"@ || item == "radiansToDegrees"@ || item
        == "degreesToRadians"@
}

/// The items of the built-in module `string`.
pub open spec fn string_item(item: Seq<char>) -> bool {
    item == "length"@ || item == "trim"@ || item == "trimStart"@ || item == "trimEnd"@ || item
        == "repeat"@ || item == "includes"@ || item == "startsWith"@ || item == "endsWith"@ || item
        == "toLowerCase"@ || item == "toUpperCase"@ || item == "toNumber"@
}

/// The items of the built-in modules.
pub open spec fn builtin_exists(module: Seq<char>, item: Seq<char>) -> bool {
    ||| module == "maths"@ && maths_item(item)
    ||| module == "string"@ && string_item(item)
}

/// The constant that a literal loads.
pub open spec fn literal_constant(type_: LiteralType, value: Seq<char>) -> ConstantModel {
    match type_ {
        LiteralType::Number => ConstantModel::Number(number_text(value)),
        _ => ConstantModel::Text(value),
    }
}

/// The right operand of a pipeline with one comment around it taken off.
pub open spec fn piped(right: Expression) -> Expression {
    match right.expr {
        Expr::Comment { expression, .. } => *expression,
        _ => right,
    }
}

/// The locals that a function's parameters become.
pub open spec fn parameter_locals(ps: Seq<Parameter>, d: u8) -> Seq<(Seq<char>, u8)> {
    Seq::new(ps.len(), |i: int| (ps[i].name@, d))
}

/// The name a function is compiled under.
pub open spec fn function_name(name: Option<&str>) -> Seq<char> {
    match name {
        Some(n) => n@,
        None => Seq::empty(),
    }
}

// ---------------------------------------------------------------------
// What compiling a tree does to the state
// ---------------------------------------------------------------------

/// The state after expression `e` is compiled.
pub open spec fn c_expr(src: Seq<u8>, s: CState, e: Expression) -> CState
    decreases e, 2nat,
{
    match e.expr {
        Expr::Literal { type_, value } => match type_ {
            LiteralType::True => emit(src, s, e.span, OpCode::True),
            LiteralType::False => emit(src, s, e.span, OpCode::False),
            LiteralType::Null => emit(src, s, e.span, OpCode::Null),
            _ => emit_constant(src, s, e.span, literal_constant(type_, value@)),
        },
        Expr::Group { expression } => c_expr(src, s, *expression),
        Expr::Comment { expression, .. } => c_expr(src, s, *expression),
        Expr::Unary { operator, expression } => emit(
            src,
            c_expr(src, s, *expression),
            e.span,
            match operator {
                UnaryOperator::Minus => OpCode::Negate,
                UnaryOperator::Not => OpCode::Not,
            },
        ),
        Expr::Binary { .. } => c_binary(src, s, e),
        Expr::Assignment { identifier, expression } => {
            let i = last_local(s.locals, identifier@);
            let s1 = c_expr(src, s, *expression);
            if i >= 0 {
                emit(src, s1, e.span, OpCode::SetLocal((i % 256) as u8))
            } else {
                emit_global(src, s1, e.span, GlobalAccess::Assign, identifier@)
            }
        },
        Expr::Variable { name } => {
            let i = last_local(s.locals, name@);
            if i >= 0 {
                emit(src, s, e.span, OpCode::GetLocal((i % 256) as u8))
            } else {
                emit_global(src, s, e.span, GlobalAccess::Get, name@)
            }
        },
        Expr::Call { expression, arguments } => {
            let s1 = c_expr(src, s, *expression);
            let s2 = if arguments.len() > 255 {
                fail(src, s1, Error::TooManyArguments, e.span, Seq::empty())
            } else {
                s1
            };
            emit(
                src,
                c_exprs(src, s2, arguments@),
                e.span,
                OpCode::Call((arguments.len() % 256) as u8),
            )
        },
        Expr::Function { .. } => c_function(src, s, e),
        _ => s,
    }
}

/// The state after the expressions `es` are compiled in order.
pub open spec fn c_exprs(src: Seq<u8>, s: CState, es: Seq<Expression>) -> CState
    decreases es, 0nat,
{
    if es.len() == 0 {
        s
    } else {
        c_expr(src, c_exprs(src, s, es.drop_last()), es.last())
    }
}

/// The state after a binary expression `e` is compiled.
pub open spec fn c_binary(src: Seq<u8>, s: CState, e: Expression) -> CState
    decreases e, 1nat,
{
    match e.expr {
        Expr::Binary { operator, left, right } => match operator {
            BinaryOperator::And => {
                let s1 = c_expr(src, s, *left);
                let j = s1.chunk.code.len() as int;
                let s2 = emit(src, emit(src, s1, e.span, OpCode::JumpIfFalse(65535)), e.span, OpCode::Pop);
                patch(src, c_expr(src, s2, *right), e.span, j)
            },
            BinaryOperator::Or | BinaryOperator::Nullish => {
                let s1 = c_expr(src, s, *left);
                let j = s1.chunk.code.len() as int;
                let s2 = emit(
                    src,
                    s1,
                    e.span,
                    if operator == BinaryOperator::Or {
                        OpCode::JumpIfFalse(65535)
                    } else {
                        OpCode::JumpIfNull(65535)
                    },
                );
                let k = s2.chunk.code.len() as int;
                let s3 = emit(src, patch(src, emit(src, s2, e.span, OpCode::Jump(65535)), e.span, j), e.span, OpCode::Pop);
                patch(src, c_expr(src, s3, *right), e.span, k)
            },
            BinaryOperator::Pipeline => c_pipeline(src, s, e),
            _ => {
                let s1 = c_expr(src, c_expr(src, s, *left), *right);
                match operator {
                    BinaryOperator::Plus => emit(src, s1, e.span, OpCode::Add),
                    BinaryOperator::Minus => emit(src, s1, e.span, OpCode::Subtract),
                    BinaryOperator::Multiply => emit(src, s1, e.span, OpCode::Multiply),
                    BinaryOperator::Divide => emit(src, s1, e.span, OpCode::Divide),
                    BinaryOperator::Equal => emit(src, s1, e.span, OpCode::Equal),
                    BinaryOperator::Greater => emit(src, s1, e.span, OpCode::Greater),
                    BinaryOperator::Less => emit(src, s1, e.span, OpCode::Less),
                    BinaryOperator::NotEqual => emit(src, emit(src, s1, e.span, OpCode::Equal), e.span, OpCode::Not),
                    BinaryOperator::GreaterEqual => emit(src, emit(src, s1, e.span, OpCode::Less), e.span, OpCode::Not),
                    _ => emit(src, emit(src, s1, e.span, OpCode::Greater), e.span, OpCode::Not),
                }
            },
        },
        _ => s,
    }
}

/// The state after a pipeline `e` is compiled: the value on the left is
/// passed as the first argument of the call on the right, or as the only
/// argument of the function on the right.
pub open spec fn c_pipeline(src: Seq<u8>, s: CState, e: Expression) -> CState
    decreases e, 0nat,
{
    match e.expr {
        Expr::Binary { left, right, .. } => match piped(*right).expr {
            Expr::Call { expression, arguments } => {
                let s1 = c_expr(src, s, *expression);
                let s2 = if arguments.len() > 254 {
                    fail(src, s1, Error::TooManyArguments, e.span, Seq::empty())
                } else {
                    s1
                };
                emit(
                    src,
                    c_exprs(src, c_expr(src, s2, *left), arguments@),
                    e.span,
                    OpCode::Call(((arguments.len() % 256) + 1) as u8),
                )
            },
            _ => emit(src, c_expr(src, c_expr(src, s, piped(*right)), *left), e.span, OpCode::Call(1)),
        },
        _ => s,
    }
}

/// The state after a function expression `e` is compiled: its body goes to
/// a chunk of its own, with the parameters as the first locals of a new
/// scope; back in the enclosing chunk that scope ends, and the function's
/// chunk becomes a constant there.
pub open spec fn c_function(src: Seq<u8>, s: CState, e: Expression) -> CState
    decreases e, 1nat,
{
    match e.expr {
        Expr::Function { parameters, body, name, .. } => {
            let s1 = if parameters.len() > 255 {
                fail(src, s, Error::TooManyParameters, e.span, Seq::empty())
            } else {
                s
            };
            let d = (s1.depth + 1) as u8;
            let s2 = CState {
                chunk: empty_builder(),
                stack: s1.stack.push(s1.chunk),
                locals: s1.locals + parameter_locals(parameters@, d),
                depth: d,
                ..s1
            };
            let s3 = c_stmt(src, s2, *body);
            let s4 = emit(src, emit(src, s3, e.span, OpCode::Null), e.span, OpCode::Return);
            let s5 = end_scope(
                CState { chunk: s4.stack.last(), stack: s4.stack.drop_last(), ..s4 },
            );
            let f = function_name(name);
            emit_constant(
                src,
                s5,
                e.span,
                ConstantModel::Function(
                    f,
                    (parameters.len() % 256) as u8,
                    ChunkModel {
                        name: f,
                        code: s4.chunk.code,
                        constants: s4.chunk.constants,
                        lines: s4.chunk.lines,
                    },
                ),
            )
        },
        _ => s,
    }
}

/// The state after statement `st` is compiled.
pub open spec fn c_stmt(src: Seq<u8>, s: CState, st: Statement) -> CState
    decreases st, 2nat,
{
    match st.stmt {
        Stmt::Declaration { identifier, expression, .. } => {
            let s1 = match expression {
                Some(x) => c_expr(src, s, x),
                None => emit(src, s, st.span, OpCode::Null),
            };
            match identifier {
                DeclarationIdentifier::Variable(n) => define(src, s1, n@, st.span),
                _ => s1,
            }
        },
        Stmt::If { .. } => c_if(src, s, st),
        Stmt::Import { module, items } => c_imports(src, s, st.span, module@, items@),
        Stmt::While { .. } => c_while(src, s, st),
        Stmt::Return { expression } => {
            let s1 = match expression {
                Some(x) => c_expr(src, s, x),
                None => emit(src, s, st.span, OpCode::Null),
            };
            emit(src, s1, st.span, OpCode::Return)
        },
        Stmt::Block { body } => end_scope(c_stmts(src, begin_scope(s), body@)),
        Stmt::Expression { expression } => emit_blank(c_expr(src, s, expression), OpCode::Pop),
        Stmt::Comment { .. } => s,
    }
}

/// The state after the statements `ss` are compiled in order.
pub open spec fn c_stmts(src: Seq<u8>, s: CState, ss: Seq<Statement>) -> CState
    decreases ss, 0nat,
{
    if ss.len() == 0 {
        s
    } else {
        c_stmt(src, c_stmts(src, s, ss.drop_last()), ss.last())
    }
}

/// The state after an `if` statement `st` is compiled.
pub open spec fn c_if(src: Seq<u8>, s: CState, st: Statement) -> CState
    decreases st, 1nat,
{
    match st.stmt {
        Stmt::If { condition, then, otherwise } => {
            let s1 = c_expr(src, s, condition);
            let j = s1.chunk.code.len() as int;
            let s2 = emit(src, emit(src, s1, st.span, OpCode::JumpIfFalse(65535)), st.span, OpCode::Pop);
            let s3 = c_stmt(src, s2, *then);
            match otherwise {
                Some(o) => {
                    let k = s3.chunk.code.len() as int;
                    let s4 = emit(src, patch(src, emit(src, s3, st.span, OpCode::Jump(65535)), st.span, j), st.span, OpCode::Pop);
                    patch(src, c_stmt(src, s4, *o), st.span, k)
                },
                None => emit(src, patch(src, s3, st.span, j), st.span, OpCode::Pop),
            }
        },
        _ => s,
    }
}

/// The state after a `while` statement `st` is compiled.
pub open spec fn c_while(src: Seq<u8>, s: CState, st: Statement) -> CState
    decreases st, 1nat,
{
    match st.stmt {
        Stmt::While { condition, body } => {
            let start = s.chunk.code.len() as int;
            let s1 = c_expr(src, s, condition);
            let j = s1.chunk.code.len() as int;
            let s2 = emit(src, emit(src, s1, st.span, OpCode::JumpIfFalse(65535)), st.span, OpCode::Pop);
            let s3 = c_stmt(src, s2, *body);
            let offset = s3.chunk.code.len() - start;
            let s4 = if offset > 65535 {
                fail(src, s3, Error::TooBigJump, st.span, Seq::empty())
            } else {
                s3
            };
            let s5 = emit(src, s4, st.span, OpCode::Loop((offset % 65536) as u16));
            emit(src, patch(src, s5, st.span, j), st.span, OpCode::Pop)
        },
        _ => s,
    }
}

/// The state after the items of an import from `module` are compiled: a
/// built-in item is loaded and declared under its name, any other is an
/// error.
pub open spec fn c_imports(
    src: Seq<u8>,
    s: CState,
    span: Span,
    module: Seq<char>,
    items: Seq<ImportItem>,
) -> CState
    decreases items.len(),
{
    if items.len() == 0 {
        s
    } else {
        let s1 = c_imports(src, s, span, module, items.drop_last());
        let item = items.last();
        if builtin_exists(module, item.name@) {
            define(
                src,
                emit_constant(src, s1, span, ConstantModel::Builtin(module, item.name@)),
                item.name@,
                item.span,
            )
        } else {
            fail(src, s1, Error::BuiltinNotFound, item.span, module)
        }
    }
}


// ---------------------------------------------------------------------
// Laws of the compiled code
// ---------------------------------------------------------------------

/// An arithmetic, comparison or equality expression compiles to the code of
/// its left operand, then that of its right operand, then the instructions
/// of its operator: `+` adds, `-` subtracts, `*` multiplies, `/` divides,
/// `==`, `<` and `>` compare, and `!=`, `>=` and `<=` negate the opposite
/// comparison. Nothing else changes.
pub proof fn law_binary_operators(src: Seq<u8>, s: CState, e: Expression)
    requires
        e.expr is Binary,
    ensures
        ({
            let operator = e.expr->Binary_operator;
            let operands = c_expr(src, c_expr(src, s, *e.expr->Binary_left), *e.expr->Binary_right);
            let out = c_expr(src, s, e);
            let added = if operator == BinaryOperator::Plus {
                seq![OpCode::Add]
            } else if operator == BinaryOperator::Minus {
                seq![OpCode::Subtract]
            } else if operator == BinaryOperator::Multiply {
                seq![OpCode::Multiply]
            } else if operator == BinaryOperator::Divide {
                seq![OpCode::Divide]
            } else if operator == BinaryOperator::Equal {
                seq![OpCode::Equal]
            } else if operator == BinaryOperator::NotEqual {
                seq![OpCode::Equal, OpCode::Not]
            } else if operator == BinaryOperator::Less {
                seq![OpCode::Less]
            } else if operator == BinaryOperator::GreaterEqual {
                seq![OpCode::Less, OpCode::Not]
            } else if operator == BinaryOperator::Greater {
                seq![OpCode::Greater]
            } else {
                seq![OpCode::Greater, OpCode::Not]
            };
            operator != BinaryOperator::And && operator != BinaryOperator::Or && operator
                != BinaryOperator::Nullish && operator != BinaryOperator::Pipeline ==> {
                &&& out.chunk.code == operands.chunk.code + added
                &&& out.chunk.lines.len() == operands.chunk.lines.len() + added.len()
                &&& out.chunk.constants == operands.chunk.constants
                &&& out.locals == operands.locals
                &&& out.stack == operands.stack
                &&& out.depth == operands.depth
                &&& out.error == operands.error
            }
        }),
{
    let operator = e.expr->Binary_operator;
    let operands = c_expr(src, c_expr(src, s, *e.expr->Binary_left), *e.expr->Binary_right);
    let out = c_expr(src, s, e);
    if operator != BinaryOperator::And && operator != BinaryOperator::Or && operator
        != BinaryOperator::Nullish && operator != BinaryOperator::Pipeline {
        assert(out == c_binary(src, s, e));
        assert(operands.chunk.code.push(OpCode::Add) =~= operands.chunk.code + seq![OpCode::Add]);
        assert(operands.chunk.code.push(OpCode::Subtract) =~= operands.chunk.code + seq![OpCode::Subtract]);
        assert(operands.chunk.code.push(OpCode::Multiply) =~= operands.chunk.code + seq![OpCode::Multiply]);
        assert(operands.chunk.code.push(OpCode::Divide) =~= operands.chunk.code + seq![OpCode::Divide]);
        assert(operands.chunk.code.push(OpCode::Equal) =~= operands.chunk.code + seq![OpCode::Equal]);
        assert(operands.chunk.code.push(OpCode::Less) =~= operands.chunk.code + seq![OpCode::Less]);
        assert(operands.chunk.code.push(OpCode::Greater) =~= operands.chunk.code + seq![OpCode::Greater]);
        assert(operands.chunk.code.push(OpCode::Equal).push(OpCode::Not) =~= operands.chunk.code + seq![OpCode::Equal, OpCode::Not]);
        assert(operands.chunk.code.push(OpCode::Less).push(OpCode::Not) =~= operands.chunk.code + seq![OpCode::Less, OpCode::Not]);
        assert(operands.chunk.code.push(OpCode::Greater).push(OpCode::Not) =~= operands.chunk.code + seq![OpCode::Greater, OpCode::Not]);
    }
}

/// `-x` compiles to the code of `x`, then `Negate`; `!x` to the code of
/// `x`, then `Not`.
pub proof fn law_unary_operators(src: Seq<u8>, s: CState, e: Expression)
    requires
        e.expr is Unary,
    ensures
        ({
            let inner = c_expr(src, s, *e.expr->Unary_expression);
            let out = c_expr(src, s, e);
            &&& out.chunk.code == inner.chunk.code.push(
                if e.expr->Unary_operator == UnaryOperator::Minus {
                    OpCode::Negate
                } else {
                    OpCode::Not
                },
            )
            &&& out.chunk.constants == inner.chunk.constants
            &&& out.error == inner.error
        }),
{
}

proof fn lemma_find_constant(cs: Seq<ConstantModel>, c: ConstantModel)
    ensures
        -1 <= crate::chunk::find_constant(cs, c) < cs.len(),
        crate::chunk::find_constant(cs, c) >= 0 ==> crate::chunk::same_value(
            cs[crate::chunk::find_constant(cs, c)],
            c,
        ),
        crate::chunk::find_constant(cs, c) == -1 ==> forall|i: int|
            0 <= i < cs.len() ==> !crate::chunk::same_value(#[trigger] cs[i], c),
    decreases cs.len(),
{
    if cs.len() > 0 {
        let p = cs.drop_last();
        lemma_find_constant(p, c);
        if crate::chunk::find_constant(cs, c) == -1 {
            assert forall|i: int| 0 <= i < cs.len() implies !crate::chunk::same_value(
                #[trigger] cs[i],
                c,
            ) by {
                if i < cs.len() - 1 {
                    assert(p[i] == cs[i]);
                    assert(!crate::chunk::same_value(p[i], c));
                }
            }
        }
        if crate::chunk::find_constant(p, c) >= 0 {
            assert(p[crate::chunk::find_constant(p, c)] == cs[crate::chunk::find_constant(p, c)]);
        }
    }
}

/// Loading a constant adds one instruction that loads an entry of the
/// table standing for that constant's value; the entries already there
/// stay, and a new entry goes at the end only when none stood for it.
pub proof fn law_constant_loads(src: Seq<u8>, s: CState, span: Span, c: ConstantModel)
    ensures
        ({
            let out = emit_constant(src, s, span, c);
            &&& out.chunk.constants.subrange(0, s.chunk.constants.len() as int) == s.chunk.constants
            &&& out.chunk.constants.len() <= s.chunk.constants.len() + 1
            &&& out.error is None ==> exists|i: int|
                0 <= i < out.chunk.constants.len() && (out.chunk.constants[i] == c
                    || crate::chunk::same_value(out.chunk.constants[i], c)) && (
                out.chunk.code == s.chunk.code.push(OpCode::Constant(i as u8)) && i < 256
                    || out.chunk.code == s.chunk.code.push(OpCode::ConstantLong(i as u16)) && 256
                    <= i < 65536)
            &&& out.chunk.constants.len() > s.chunk.constants.len() ==> out.chunk.constants.last() == c
                && forall|i: int|
                0 <= i < s.chunk.constants.len() ==> !crate::chunk::same_value(
                    #[trigger] s.chunk.constants[i],
                    c,
                )
        }),
{
    lemma_find_constant(s.chunk.constants, c);
    let i = constant_index(s.chunk, c);
    let out = emit_constant(src, s, span, c);
    assert(with_constant(s.chunk, c).constants.subrange(0, s.chunk.constants.len() as int)
        =~= s.chunk.constants);
    if out.error is None {
        assert(0 <= i < out.chunk.constants.len());
        assert(out.chunk.constants[i] == c || crate::chunk::same_value(out.chunk.constants[i], c));
        if i < 256 {
            assert(out.chunk.code == s.chunk.code.push(OpCode::Constant(i as u8)));
        } else {
            assert(out.chunk.code == s.chunk.code.push(OpCode::ConstantLong(i as u16)));
        }
    }
    if out.chunk.constants.len() > s.chunk.constants.len() {
        assert(crate::chunk::find_constant(s.chunk.constants, c) == -1);
    }
}

/// A literal compiles to one instruction: `true`, `false` and `null` to
/// their own, and a number or a string to a load of an entry of the
/// constants standing for the number (in its simplest form) or the string.
pub proof fn law_literals(src: Seq<u8>, s: CState, e: Expression)
    requires
        e.expr is Literal,
    ensures
        ({
            let out = c_expr(src, s, e);
            let t = e.expr->Literal_type_;
            let v = e.expr->Literal_value@;
            &&& t == LiteralType::True ==> out.chunk.code == s.chunk.code.push(OpCode::True)
            &&& t == LiteralType::False ==> out.chunk.code == s.chunk.code.push(OpCode::False)
            &&& t == LiteralType::Null ==> out.chunk.code == s.chunk.code.push(OpCode::Null)
            &&& t == LiteralType::Number ==> out == emit_constant(
                src,
                s,
                e.span,
                ConstantModel::Number(number_text(v)),
            )
            &&& t == LiteralType::String ==> out == emit_constant(
                src,
                s,
                e.span,
                ConstantModel::Text(v),
            )
        }),
{
}

proof fn lemma_last_local(locals: Seq<(Seq<char>, u8)>, name: Seq<char>)
    ensures
        -1 <= last_local(locals, name) < locals.len(),
        last_local(locals, name) >= 0 ==> locals[last_local(locals, name)].0 == name && forall|
            k: int,
        |
            last_local(locals, name) < k < locals.len() ==> (#[trigger] locals[k]).0 != name,
        last_local(locals, name) == -1 ==> forall|k: int|
            0 <= k < locals.len() ==> (#[trigger] locals[k]).0 != name,
    decreases locals.len(),
{
    if locals.len() > 0 {
        let p = locals.drop_last();
        lemma_last_local(p, name);
        let r = last_local(locals, name);
        if locals.last().0 != name {
            if r >= 0 {
                assert(p[r] == locals[r]);
            }
            assert forall|k: int| r < k < locals.len() implies (#[trigger] locals[k]).0 != name by {
                if k < locals.len() - 1 {
                    assert(p[k] == locals[k]);
                }
            }
        }
    }
}

/// A variable reads the innermost local of its name, by its slot, when
/// there is one; else the global of that name, through an entry of the
/// constants holding the name.
pub proof fn law_variables(src: Seq<u8>, s: CState, e: Expression)
    requires
        e.expr is Variable,
    ensures
        ({
            let out = c_expr(src, s, e);
            let name = e.expr->Variable_name@;
            &&& (exists|k: int| 0 <= k < s.locals.len() && (#[trigger] s.locals[k]).0 == name)
                ==> exists|slot: int|
                0 <= slot < s.locals.len() && s.locals[slot].0 == name && (forall|k: int|
                    slot < k < s.locals.len() ==> (#[trigger] s.locals[k]).0 != name)
                    && out.chunk.code == s.chunk.code.push(OpCode::GetLocal((slot % 256) as u8))
            &&& (forall|k: int| 0 <= k < s.locals.len() ==> (#[trigger] s.locals[k]).0 != name)
                && out.error is None ==> exists|i: int|
                0 <= i < 256 && i < out.chunk.constants.len() && out.chunk.constants[i]
                    == ConstantModel::Text(name) && out.chunk.code == s.chunk.code.push(
                    OpCode::GetGlobal(i as u8),
                )
        }),
{
    let name = e.expr->Variable_name@;
    lemma_last_local(s.locals, name);
    let c = ConstantModel::Text(name);
    lemma_find_constant(s.chunk.constants, c);
    let slot = last_local(s.locals, name);
    if slot >= 0 {
        assert(s.locals[slot].0 == name);
    } else {
        let i = constant_index(s.chunk, c);
        let out = c_expr(src, s, e);
        if out.error is None {
            assert(i < 256);
            assert(out.chunk.constants[i] == c);
            assert(out.chunk.code == s.chunk.code.push(OpCode::GetGlobal(i as u8)));
        }
    }
}

// ---------------------------------------------------------------------
// Compiling only adds to the chunk
// ---------------------------------------------------------------------

/// `b` holds all that `a` holds, in the same places: its instructions,
/// constants and lines start with those of `a`.
pub open spec fn chunk_extends(a: BuilderModel, b: BuilderModel) -> bool {
    &&& a.code.len() <= b.code.len()
    &&& forall|i: int| 0 <= i < a.code.len() ==> #[trigger] b.code[i] == a.code[i]
    &&& a.constants.len() <= b.constants.len()
    &&& forall|i: int| 0 <= i < a.constants.len() ==> #[trigger] b.constants[i] == a.constants[i]
    &&& a.lines.len() <= b.lines.len()
    &&& forall|i: int| 0 <= i < a.lines.len() ==> #[trigger] b.lines[i] == a.lines[i]
}

/// A step keeps what was written and the chunks of the enclosing functions.
pub open spec fn keeps(a: CState, b: CState) -> bool {
    chunk_extends(a.chunk, b.chunk) && b.stack == a.stack
}

proof fn lemma_written(b: BuilderModel, op: OpCode, line: LineNumber)
    ensures
        chunk_extends(b, written(b, op, line)),
        written(b, op, line).code.len() == b.code.len() + 1,
        written(b, op, line).code.last() == op,
{
}

proof fn lemma_emit_constant_keeps(src: Seq<u8>, s: CState, span: Span, c: ConstantModel)
    ensures
        keeps(s, emit_constant(src, s, span, c)),
{
}

proof fn lemma_emit_global_keeps(
    src: Seq<u8>,
    s: CState,
    span: Span,
    access: GlobalAccess,
    name: Seq<char>,
)
    ensures
        keeps(s, emit_global(src, s, span, access, name)),
{
}

proof fn lemma_pops_keeps(b: BuilderModel, n: nat)
    ensures
        chunk_extends(b, pops(b, n)),
        pops(b, n).code.len() == b.code.len() + n,
        forall|i: int| b.code.len() <= i < pops(b, n).code.len() ==> #[trigger] pops(b, n).code[i] == OpCode::Pop,
    decreases n,
{
    if n > 0 {
        lemma_pops_keeps(b, (n - 1) as nat);
        lemma_written(pops(b, (n - 1) as nat), OpCode::Pop, 0);
    }
}

proof fn lemma_define_keeps(src: Seq<u8>, s: CState, name: Seq<char>, span: Span)
    ensures
        keeps(s, define(src, s, name, span)),
{
}

/// A patch at `p`, past what `a` holds, keeps it.
proof fn lemma_patch_keeps(src: Seq<u8>, a: CState, s: CState, span: Span, p: int)
    requires
        keeps(a, s),
        a.chunk.code.len() <= p < s.chunk.code.len(),
    ensures
        keeps(a, patch(src, s, span, p)),
        patch(src, s, span, p).chunk.code.len() == s.chunk.code.len(),
        forall|i: int|
            0 <= i < s.chunk.code.len() && i != p ==> #[trigger] patch(src, s, span, p).chunk.code[i]
                == s.chunk.code[i],
{
}

proof fn lemma_expr_keeps(src: Seq<u8>, s: CState, e: Expression)
    ensures
        keeps(s, c_expr(src, s, e)),
    decreases e, 2nat,
{
    match e.expr {
        Expr::Literal { type_, value } => {},
        Expr::Group { expression } => lemma_expr_keeps(src, s, *expression),
        Expr::Comment { expression, .. } => lemma_expr_keeps(src, s, *expression),
        Expr::Unary { expression, .. } => lemma_expr_keeps(src, s, *expression),
        Expr::Binary { .. } => lemma_binary_keeps(src, s, e),
        Expr::Assignment { expression, .. } => lemma_expr_keeps(src, s, *expression),
        Expr::Variable { .. } => {},
        Expr::Call { expression, arguments } => {
            lemma_expr_keeps(src, s, *expression);
            let s1 = c_expr(src, s, *expression);
            let s2 = if arguments.len() > 255 {
                fail(src, s1, Error::TooManyArguments, e.span, Seq::empty())
            } else {
                s1
            };
            lemma_exprs_keeps(src, s2, arguments@);
        },
        Expr::Function { .. } => lemma_function_keeps(src, s, e),
        _ => {},
    }
}

proof fn lemma_exprs_keeps(src: Seq<u8>, s: CState, es: Seq<Expression>)
    ensures
        keeps(s, c_exprs(src, s, es)),
    decreases es, 0nat,
{
    if es.len() > 0 {
        lemma_exprs_keeps(src, s, es.drop_last());
        lemma_expr_keeps(src, c_exprs(src, s, es.drop_last()), es.last());
    }
}

proof fn lemma_binary_keeps(src: Seq<u8>, s: CState, e: Expression)
    ensures
        keeps(s, c_binary(src, s, e)),
    decreases e, 1nat,
{
    match e.expr {
        Expr::Binary { operator, left, right } => {
            lemma_expr_keeps(src, s, *left);
            let s1 = c_expr(src, s, *left);
            if operator == BinaryOperator::And {
                let j = s1.chunk.code.len() as int;
                let s2 = emit(src, emit(src, s1, e.span, OpCode::JumpIfFalse(65535)), e.span, OpCode::Pop);
                lemma_expr_keeps(src, s2, *right);
                lemma_patch_keeps(src, s, c_expr(src, s2, *right), e.span, j);
            } else if operator == BinaryOperator::Or || operator == BinaryOperator::Nullish {
                let j = s1.chunk.code.len() as int;
                let s2 = emit(
                    src,
                    s1,
                    e.span,
                    if operator == BinaryOperator::Or {
                        OpCode::JumpIfFalse(65535)
                    } else {
                        OpCode::JumpIfNull(65535)
                    },
                );
                let k = s2.chunk.code.len() as int;
                let s2b = emit(src, s2, e.span, OpCode::Jump(65535));
                lemma_patch_keeps(src, s, s2b, e.span, j);
                let s3 = emit(src, patch(src, s2b, e.span, j), e.span, OpCode::Pop);
                lemma_expr_keeps(src, s3, *right);
                lemma_patch_keeps(src, s, c_expr(src, s3, *right), e.span, k);
            } else if operator == BinaryOperator::Pipeline {
                lemma_pipeline_keeps(src, s, e);
            } else {
                lemma_expr_keeps(src, s1, *right);
            }
        },
        _ => {},
    }
}

proof fn lemma_pipeline_keeps(src: Seq<u8>, s: CState, e: Expression)
    ensures
        keeps(s, c_pipeline(src, s, e)),
    decreases e, 0nat,
{
    match e.expr {
        Expr::Binary { left, right, .. } => match piped(*right).expr {
            Expr::Call { expression, arguments } => {
                lemma_expr_keeps(src, s, *expression);
                let s1 = c_expr(src, s, *expression);
                let s2 = if arguments.len() > 254 {
                    fail(src, s1, Error::TooManyArguments, e.span, Seq::empty())
                } else {
                    s1
                };
                lemma_expr_keeps(src, s2, *left);
                lemma_exprs_keeps(src, c_expr(src, s2, *left), arguments@);
            },
            _ => {
                lemma_expr_keeps(src, s, piped(*right));
                lemma_expr_keeps(src, c_expr(src, s, piped(*right)), *left);
            },
        },
        _ => {},
    }
}

proof fn lemma_function_keeps(src: Seq<u8>, s: CState, e: Expression)
    ensures
        keeps(s, c_function(src, s, e)),
    decreases e, 1nat,
{
    match e.expr {
        Expr::Function { parameters, body, name, .. } => {
            let s1 = if parameters.len() > 255 {
                fail(src, s, Error::TooManyParameters, e.span, Seq::empty())
            } else {
                s
            };
            let d = (s1.depth + 1) as u8;
            let s2 = CState {
                chunk: empty_builder(),
                stack: s1.stack.push(s1.chunk),
                locals: s1.locals + parameter_locals(parameters@, d),
                depth: d,
                ..s1
            };
            lemma_stmt_keeps(src, s2, *body);
            let s3 = c_stmt(src, s2, *body);
            let s4 = emit(src, emit(src, s3, e.span, OpCode::Null), e.span, OpCode::Return);
            assert(s4.stack == s1.stack.push(s1.chunk));
            assert(s4.stack.drop_last() =~= s1.stack);
            let r = CState { chunk: s4.stack.last(), stack: s4.stack.drop_last(), ..s4 };
            lemma_pops_keeps(r.chunk, trailing(r.locals, r.depth));
            let s5 = end_scope(r);
            let f = function_name(name);
            lemma_emit_constant_keeps(
                src,
                s5,
                e.span,
                ConstantModel::Function(
                    f,
                    (parameters.len() % 256) as u8,
                    ChunkModel {
                        name: f,
                        code: s4.chunk.code,
                        constants: s4.chunk.constants,
                        lines: s4.chunk.lines,
                    },
                ),
            );
        },
        _ => {},
    }
}

proof fn lemma_stmt_keeps(src: Seq<u8>, s: CState, st: Statement)
    ensures
        keeps(s, c_stmt(src, s, st)),
    decreases st, 2nat,
{
    match st.stmt {
        Stmt::Declaration { identifier, expression, .. } => {
            let s1 = match expression {
                Some(x) => {
                    lemma_expr_keeps(src, s, x);
                    c_expr(src, s, x)
                },
                None => emit(src, s, st.span, OpCode::Null),
            };
            match identifier {
                DeclarationIdentifier::Variable(n) => lemma_define_keeps(src, s1, n@, st.span),
                _ => {},
            }
        },
        Stmt::If { .. } => lemma_if_keeps(src, s, st),
        Stmt::Import { module, items } => lemma_imports_keeps(src, s, st.span, module@, items@),
        Stmt::While { .. } => lemma_while_keeps(src, s, st),
        Stmt::Return { expression } => {
            match expression {
                Some(x) => lemma_expr_keeps(src, s, x),
                None => {},
            }
        },
        Stmt::Block { body } => {
            lemma_stmts_keeps(src, begin_scope(s), body@);
            let s1 = c_stmts(src, begin_scope(s), body@);
            lemma_pops_keeps(s1.chunk, trailing(s1.locals, s1.depth));
        },
        Stmt::Expression { expression } => lemma_expr_keeps(src, s, expression),
        Stmt::Comment { .. } => {},
    }
}

proof fn lemma_stmts_keeps(src: Seq<u8>, s: CState, ss: Seq<Statement>)
    ensures
        keeps(s, c_stmts(src, s, ss)),
    decreases ss, 0nat,
{
    if ss.len() > 0 {
        lemma_stmts_keeps(src, s, ss.drop_last());
        lemma_stmt_keeps(src, c_stmts(src, s, ss.drop_last()), ss.last());
    }
}

proof fn lemma_if_keeps(src: Seq<u8>, s: CState, st: Statement)
    ensures
        keeps(s, c_if(src, s, st)),
    decreases st, 1nat,
{
    match st.stmt {
        Stmt::If { condition, then, otherwise } => {
            lemma_expr_keeps(src, s, condition);
            let s1 = c_expr(src, s, condition);
            let j = s1.chunk.code.len() as int;
            let s2 = emit(src, emit(src, s1, st.span, OpCode::JumpIfFalse(65535)), st.span, OpCode::Pop);
            lemma_stmt_keeps(src, s2, *then);
            let s3 = c_stmt(src, s2, *then);
            match otherwise {
                Some(o) => {
                    let k = s3.chunk.code.len() as int;
                    let s3b = emit(src, s3, st.span, OpCode::Jump(65535));
                    lemma_patch_keeps(src, s, s3b, st.span, j);
                    let s4 = emit(src, patch(src, s3b, st.span, j), st.span, OpCode::Pop);
                    lemma_stmt_keeps(src, s4, *o);
                    lemma_patch_keeps(src, s, c_stmt(src, s4, *o), st.span, k);
                },
                None => {
                    lemma_patch_keeps(src, s, s3, st.span, j);
                },
            }
        },
        _ => {},
    }
}

proof fn lemma_while_keeps(src: Seq<u8>, s: CState, st: Statement)
    ensures
        keeps(s, c_while(src, s, st)),
    decreases st, 1nat,
{
    match st.stmt {
        Stmt::While { condition, body } => {
            lemma_expr_keeps(src, s, condition);
            let s1 = c_expr(src, s, condition);
            let j = s1.chunk.code.len() as int;
            let s2 = emit(src, emit(src, s1, st.span, OpCode::JumpIfFalse(65535)), st.span, OpCode::Pop);
            lemma_stmt_keeps(src, s2, *body);
            let s3 = c_stmt(src, s2, *body);
            let offset = s3.chunk.code.len() - s.chunk.code.len();
            let s4 = if offset > 65535 {
                fail(src, s3, Error::TooBigJump, st.span, Seq::empty())
            } else {
                s3
            };
            let s5 = emit(src, s4, st.span, OpCode::Loop((offset % 65536) as u16));
            lemma_patch_keeps(src, s, s5, st.span, j);
        },
        _ => {},
    }
}

proof fn lemma_imports_keeps(
    src: Seq<u8>,
    s: CState,
    span: Span,
    module: Seq<char>,
    items: Seq<ImportItem>,
)
    ensures
        keeps(s, c_imports(src, s, span, module, items)),
    decreases items.len(),
{
    if items.len() > 0 {
        lemma_imports_keeps(src, s, span, module, items.drop_last());
        let s1 = c_imports(src, s, span, module, items.drop_last());
        let item = items.last();
        lemma_emit_constant_keeps(src, s1, span, ConstantModel::Builtin(module, item.name@));
        lemma_define_keeps(
            src,
            emit_constant(src, s1, span, ConstantModel::Builtin(module, item.name@)),
            item.name@,
            item.span,
        );
    }
}

/// Compiling an expression or a statement only adds to the chunk: the
/// instructions, constants and lines already written stay as they are, in
/// their places, and the chunks of the enclosing functions are untouched.
pub proof fn law_compiling_only_adds(src: Seq<u8>, s: CState, e: Expression, st: Statement)
    ensures
        chunk_extends(s.chunk, c_expr(src, s, e).chunk),
        c_expr(src, s, e).stack == s.stack,
        chunk_extends(s.chunk, c_stmt(src, s, st).chunk),
        c_stmt(src, s, st).stack == s.stack,
{
    lemma_expr_keeps(src, s, e);
    lemma_stmt_keeps(src, s, st);
}

/// `a and b`, `a or b` and `a ?? b` compile to the code of `a`, then a
/// conditional jump, then the code of `b`, and every jump lands where the
/// operator means: for `and`, past `b` when `a` is false (leaving `a`);
/// for `or` and `??`, onto the `Pop` before `b` when `a` is false (or
/// null), else past `b` (leaving `a`).
pub proof fn law_logical_jumps(src: Seq<u8>, s: CState, e: Expression)
    requires
        e.expr is Binary,
    ensures
        ({
            let operator = e.expr->Binary_operator;
            let l = c_expr(src, s, *e.expr->Binary_left);
            let j = l.chunk.code.len() as int;
            let out = c_expr(src, s, e);
            let n = out.chunk.code.len() as int;
            &&& operator == BinaryOperator::And && n - j <= 65535 ==> {
                &&& j + 2 <= n
                &&& out.chunk.code[j] == OpCode::JumpIfFalse((n - j) as u16)
                &&& out.chunk.code[j + 1] == OpCode::Pop
                &&& forall|i: int| 0 <= i < j ==> #[trigger] out.chunk.code[i] == l.chunk.code[i]
            }
            &&& (operator == BinaryOperator::Or || operator == BinaryOperator::Nullish) && n - j
                <= 65535 ==> {
                &&& j + 3 <= n
                &&& out.chunk.code[j] == if operator == BinaryOperator::Or {
                    OpCode::JumpIfFalse(2)
                } else {
                    OpCode::JumpIfNull(2)
                }
                &&& out.chunk.code[j + 1] == OpCode::Jump((n - j - 1) as u16)
                &&& out.chunk.code[j + 2] == OpCode::Pop
                &&& forall|i: int| 0 <= i < j ==> #[trigger] out.chunk.code[i] == l.chunk.code[i]
            }
        }),
{
    let operator = e.expr->Binary_operator;
    let left = *e.expr->Binary_left;
    let right = *e.expr->Binary_right;
    lemma_expr_keeps(src, s, left);
    let s1 = c_expr(src, s, left);
    let j = s1.chunk.code.len() as int;
    assert(c_expr(src, s, e) == c_binary(src, s, e));
    if operator == BinaryOperator::And {
        let s2 = emit(src, emit(src, s1, e.span, OpCode::JumpIfFalse(65535)), e.span, OpCode::Pop);
        assert(s2.chunk.code[j] == OpCode::JumpIfFalse(65535));
        assert(s2.chunk.code[j + 1] == OpCode::Pop);
        lemma_expr_keeps(src, s2, right);
        let s3 = c_expr(src, s2, right);
        lemma_patch_keeps(src, s1, s3, e.span, j);
        assert(s3.chunk.code[j + 1] == OpCode::Pop);
    } else if operator == BinaryOperator::Or || operator == BinaryOperator::Nullish {
        let op = if operator == BinaryOperator::Or {
            OpCode::JumpIfFalse(65535)
        } else {
            OpCode::JumpIfNull(65535)
        };
        let s2 = emit(src, s1, e.span, op);
        let k = j + 1;
        let s2b = emit(src, s2, e.span, OpCode::Jump(65535));
        assert(s2b.chunk.code[j] == op);
        assert(s2b.chunk.code[k] == OpCode::Jump(65535));
        lemma_patch_keeps(src, s1, s2b, e.span, j);
        let p = patch(src, s2b, e.span, j);
        let s3 = emit(src, p, e.span, OpCode::Pop);
        assert(s3.chunk.code[j + 2] == OpCode::Pop);
        assert(s3.chunk.code[k] == OpCode::Jump(65535));
        lemma_expr_keeps(src, s3, right);
        let s4 = c_expr(src, s3, right);
        assert(s4.chunk.code[k] == OpCode::Jump(65535));
        lemma_patch_keeps(src, s1, s4, e.span, k);
        assert(s4.chunk.code[j + 2] == OpCode::Pop);
        assert(s4.chunk.code[j] == s3.chunk.code[j]);
    }
}

/// The state after the condition of an `if` or a `while`, its jump and
/// the `Pop` after it, and the branch or body `then`.
pub open spec fn after_branch(src: Seq<u8>, s: CState, span: Span, condition: Expression, then: Statement) -> CState {
    c_stmt(
        src,
        emit(src, emit(src, c_expr(src, s, condition), span, OpCode::JumpIfFalse(65535)), span, OpCode::Pop),
        then,
    )
}

proof fn lemma_branch_start(src: Seq<u8>, s: CState, span: Span, condition: Expression, then: Statement)
    ensures
        ({
            let j = c_expr(src, s, condition).chunk.code.len() as int;
            let t = after_branch(src, s, span, condition, then);
            &&& keeps(c_expr(src, s, condition), t)
            &&& j + 2 <= t.chunk.code.len()
            &&& t.chunk.code[j] == OpCode::JumpIfFalse(65535)
            &&& t.chunk.code[j + 1] == OpCode::Pop
        }),
{
    lemma_expr_keeps(src, s, condition);
    let c = c_expr(src, s, condition);
    let j = c.chunk.code.len() as int;
    let s2 = emit(src, emit(src, c, span, OpCode::JumpIfFalse(65535)), span, OpCode::Pop);
    assert(s2.chunk.code[j] == OpCode::JumpIfFalse(65535));
    assert(s2.chunk.code[j + 1] == OpCode::Pop);
    lemma_stmt_keeps(src, s2, then);
}

/// `if` without `else` compiles to the condition, a jump, a `Pop`, the
/// branch and a `Pop`: when the condition is false the jump lands on the
/// last `Pop`, past the branch.
pub proof fn law_if_jumps(src: Seq<u8>, s: CState, st: Statement)
    requires
        st.stmt matches Stmt::If { otherwise, .. } && otherwise is None,
    ensures
        ({
            let out = c_stmt(src, s, st);
            let n = out.chunk.code.len() as int;
            let j = c_expr(src, s, st.stmt->If_condition).chunk.code.len() as int;
            let k = after_branch(src, s, st.span, st.stmt->If_condition, *st.stmt->If_then).chunk.code.len() as int;
            &&& n == k + 1
            &&& out.chunk.code[j + 1] == OpCode::Pop
            &&& out.chunk.code[k] == OpCode::Pop
            &&& n - j <= 65535 ==> out.chunk.code[j] == OpCode::JumpIfFalse((k - j) as u16)
        }),
{
    let condition = st.stmt->If_condition;
    let then = *st.stmt->If_then;
    assert(c_stmt(src, s, st) == c_if(src, s, st));
    lemma_branch_start(src, s, st.span, condition, then);
    let c = c_expr(src, s, condition);
    let j = c.chunk.code.len() as int;
    let t = after_branch(src, s, st.span, condition, then);
    lemma_patch_keeps(src, c, t, st.span, j);
}

/// `if` with `else` compiles to the condition, a jump, a `Pop`, the first
/// branch, a jump, a `Pop` and the `else` branch: when the condition is
/// false the first jump lands on the second `Pop`, and after the first
/// branch the second jump lands past the `else` branch.
pub proof fn law_if_else_jumps(src: Seq<u8>, s: CState, st: Statement)
    requires
        st.stmt matches Stmt::If { otherwise, .. } && otherwise is Some,
    ensures
        ({
            let out = c_stmt(src, s, st);
            let n = out.chunk.code.len() as int;
            let j = c_expr(src, s, st.stmt->If_condition).chunk.code.len() as int;
            let k = after_branch(src, s, st.span, st.stmt->If_condition, *st.stmt->If_then).chunk.code.len() as int;
            &&& k + 2 <= n
            &&& out.chunk.code[j + 1] == OpCode::Pop
            &&& out.chunk.code[k + 1] == OpCode::Pop
            &&& n - j <= 65535 ==> out.chunk.code[j] == OpCode::JumpIfFalse((k + 1 - j) as u16)
                && out.chunk.code[k] == OpCode::Jump((n - k) as u16)
        }),
{
    let condition = st.stmt->If_condition;
    let then = *st.stmt->If_then;
    let o = *st.stmt->If_otherwise.unwrap();
    assert(c_stmt(src, s, st) == c_if(src, s, st));
    lemma_branch_start(src, s, st.span, condition, then);
    let c = c_expr(src, s, condition);
    let j = c.chunk.code.len() as int;
    let t = after_branch(src, s, st.span, condition, then);
    let k = t.chunk.code.len() as int;
    let tb = emit(src, t, st.span, OpCode::Jump(65535));
    lemma_patch_keeps(src, c, tb, st.span, j);
    let p = patch(src, tb, st.span, j);
    let s4 = emit(src, p, st.span, OpCode::Pop);
    assert(s4.chunk.code[k] == OpCode::Jump(65535));
    assert(s4.chunk.code[k + 1] == OpCode::Pop);
    assert(s4.chunk.code[j + 1] == OpCode::Pop);
    lemma_stmt_keeps(src, s4, o);
    let s5 = c_stmt(src, s4, o);
    lemma_patch_keeps(src, c, s5, st.span, k);
    assert(s5.chunk.code[j] == s4.chunk.code[j]);
    assert(s5.chunk.code[k + 1] == OpCode::Pop);
    assert(s5.chunk.code[j + 1] == OpCode::Pop);
}

/// `while` compiles to the condition, a jump out, a `Pop`, the body, a
/// jump back to the condition and a `Pop`; the way out lands on that last
/// `Pop`, past the jump back.
pub proof fn law_while_jumps(src: Seq<u8>, s: CState, st: Statement)
    requires
        st.stmt is While,
    ensures
        ({
            let out = c_stmt(src, s, st);
            let n = out.chunk.code.len() as int;
            let start = s.chunk.code.len() as int;
            let j = c_expr(src, s, st.stmt->While_condition).chunk.code.len() as int;
            let k = after_branch(src, s, st.span, st.stmt->While_condition, *st.stmt->While_body).chunk.code.len() as int;
            &&& n == k + 2
            &&& out.chunk.code[j + 1] == OpCode::Pop
            &&& out.chunk.code[k + 1] == OpCode::Pop
            &&& k + 1 - start <= 65535 ==> out.chunk.code[j] == OpCode::JumpIfFalse((k + 1 - j) as u16)
                && out.chunk.code[k] == OpCode::Loop((k - start) as u16)
        }),
{
    let condition = st.stmt->While_condition;
    let body = *st.stmt->While_body;
    assert(c_stmt(src, s, st) == c_while(src, s, st));
    lemma_expr_keeps(src, s, condition);
    lemma_branch_start(src, s, st.span, condition, body);
    let c = c_expr(src, s, condition);
    let j = c.chunk.code.len() as int;
    let b = after_branch(src, s, st.span, condition, body);
    let k = b.chunk.code.len() as int;
    let offset = k - s.chunk.code.len();
    let s4 = if offset > 65535 {
        fail(src, b, Error::TooBigJump, st.span, Seq::empty())
    } else {
        b
    };
    let s5 = emit(src, s4, st.span, OpCode::Loop((offset % 65536) as u16));
    assert(s5.chunk.code[k] == OpCode::Loop((offset % 65536) as u16));
    assert(s5.chunk.code[j + 1] == OpCode::Pop);
    assert(s5.chunk.code[j] == OpCode::JumpIfFalse(65535));
    lemma_patch_keeps(src, c, s5, st.span, j);
    assert(j >= s.chunk.code.len());
}

/// An expression statement compiles to its expression, then a `Pop` that
/// drops the value; `return x` to `x`, then `Return`; a bare `return` to
/// `Null`, then `Return`; a comment to nothing.
pub proof fn law_simple_statements(src: Seq<u8>, s: CState, st: Statement)
    ensures
        ({
            let out = c_stmt(src, s, st);
            &&& st.stmt matches Stmt::Expression { expression } ==> out.chunk.code == c_expr(
                src,
                s,
                expression,
            ).chunk.code.push(OpCode::Pop)
            &&& st.stmt matches Stmt::Return { expression } ==> (expression matches Some(x)
                ==> out.chunk.code == c_expr(src, s, x).chunk.code.push(OpCode::Return))
            &&& st.stmt matches Stmt::Return { expression } ==> (expression is None
                ==> out.chunk.code == s.chunk.code.push(OpCode::Null).push(OpCode::Return))
            &&& st.stmt is Comment ==> out == s
        }),
{
}

/// A declaration outside any scope defines a global: after the value (or
/// `Null` when there is none), `DefineGlobal` of an entry of the constants
/// holding the name. Inside a scope it adds a local of that name at the
/// current depth, unless one was declared there already, which is an
/// error that names the variable. (The depth is the one after the value is
/// compiled, which is the one before.)
pub proof fn law_declarations(src: Seq<u8>, s: CState, st: Statement)
    requires
        st.stmt matches Stmt::Declaration { identifier, .. } && identifier is Variable,
    ensures
        ({
            let out = c_stmt(src, s, st);
            let name = st.stmt->Declaration_identifier->Variable_0@;
            let v = match st.stmt->Declaration_expression {
                Some(x) => c_expr(src, s, x),
                None => emit(src, s, st.span, OpCode::Null),
            };
            &&& v.depth == 0 && out.error is None ==> exists|i: int|
                0 <= i < 256 && i < out.chunk.constants.len() && out.chunk.constants[i]
                    == ConstantModel::Text(name) && out.chunk.code == v.chunk.code.push(
                    OpCode::DefineGlobal(i as u8),
                )
            &&& v.depth > 0 && !v.locals.contains((name, v.depth)) ==> out.locals == v.locals.push(
                (name, v.depth),
            ) && out.chunk == v.chunk
            &&& v.depth > 0 && v.locals.contains((name, v.depth)) ==> (out.error matches Some(d)
                && d.title == "Variable Already Exists"@ && d.message == "Variable '"@ + name
                + "' has been defined already"@)
        }),
{
    let name = st.stmt->Declaration_identifier->Variable_0@;
    let v = match st.stmt->Declaration_expression {
        Some(x) => c_expr(src, s, x),
        None => emit(src, s, st.span, OpCode::Null),
    };
    let c = ConstantModel::Text(name);
    lemma_find_constant(v.chunk.constants, c);
    match st.stmt->Declaration_expression {
        Some(x) => lemma_expr_keeps(src, s, x),
        None => {},
    }
    let out = c_stmt(src, s, st);
    assert(out == define(src, v, name, st.span));
    if v.depth == 0 && out.error is None {
        let i = constant_index(v.chunk, c);
        assert(i < 256);
        assert(out.chunk.constants[i] == c);
        assert(out.chunk.code == v.chunk.code.push(OpCode::DefineGlobal(i as u8)));
    }
}

// ---------------------------------------------------------------------
// The programs the compiler takes
// ---------------------------------------------------------------------

/// The right operand of a pipeline does not call with 255 arguments more
/// than a multiple of 256 (the count of the call, with the piped value,
/// would not fit in a byte).
pub open spec fn pipe_fits(right: Expression) -> bool {
    match piped(right).expr {
        Expr::Call { arguments, .. } => arguments.len() % 256 != 255,
        _ => true,
    }
}

/// Expression `e` is of a kind the compiler handles, and compiled at scope
/// depth `d` it opens no scope deeper than 255.
pub open spec fn expr_fits(e: Expression, d: int) -> bool
    decreases e, 1nat,
{
    match e.expr {
        Expr::Literal { .. } => true,
        Expr::Variable { .. } => true,
        Expr::Group { expression } => expr_fits(*expression, d),
        Expr::Comment { expression, .. } => expr_fits(*expression, d),
        Expr::Unary { expression, .. } => expr_fits(*expression, d),
        Expr::Assignment { expression, .. } => expr_fits(*expression, d),
        Expr::Binary { operator, left, right } => expr_fits(*left, d) && expr_fits(*right, d) && (
        operator == BinaryOperator::Pipeline ==> pipe_fits(*right)),
        Expr::Call { expression, arguments } => expr_fits(*expression, d) && exprs_fit(
            arguments@,
            d,
        ),
        Expr::Function { body, .. } => d < 255 && stmt_fits(*body, d + 1),
        _ => false,
    }
}

pub open spec fn exprs_fit(es: Seq<Expression>, d: int) -> bool
    decreases es, 0nat,
{
    es.len() == 0 || (exprs_fit(es.drop_last(), d) && expr_fits(es.last(), d))
}

proof fn lemma_exprs_fit(es: Seq<Expression>, d: int)
    requires
        exprs_fit(es, d),
    ensures
        forall|i: int| 0 <= i < es.len() ==> #[trigger] expr_fits(es[i], d),
    decreases es.len(),
{
    if es.len() > 0 {
        lemma_exprs_fit(es.drop_last(), d);
        assert forall|i: int| 0 <= i < es.len() implies #[trigger] expr_fits(es[i], d) by {
            if i < es.len() - 1 {
                assert(es.drop_last()[i] == es[i]);
            }
        }
    }
}

/// Statement `st` is of a kind the compiler handles, and compiled at scope
/// depth `d` it opens no scope deeper than 255.
pub open spec fn stmt_fits(st: Statement, d: int) -> bool
    decreases st, 1nat,
{
    match st.stmt {
        Stmt::Declaration { identifier, expression, .. } => identifier is Variable && match expression {
            Some(x) => expr_fits(x, d),
            None => true,
        },
        Stmt::If { condition, then, otherwise } => expr_fits(condition, d) && stmt_fits(*then, d)
            && match otherwise {
            Some(o) => stmt_fits(*o, d),
            None => true,
        },
        Stmt::Import { .. } => true,
        Stmt::While { condition, body } => expr_fits(condition, d) && stmt_fits(*body, d),
        Stmt::Return { expression } => match expression {
            Some(x) => expr_fits(x, d),
            None => true,
        },
        Stmt::Block { body } => d < 255 && stmts_fit(body@, d + 1),
        Stmt::Expression { expression } => expr_fits(expression, d),
        Stmt::Comment { .. } => true,
    }
}

pub open spec fn stmts_fit(ss: Seq<Statement>, d: int) -> bool
    decreases ss, 0nat,
{
    ss.len() == 0 || (stmts_fit(ss.drop_last(), d) && stmt_fits(ss.last(), d))
}

proof fn lemma_stmts_fit(ss: Seq<Statement>, d: int)
    requires
        stmts_fit(ss, d),
    ensures
        forall|i: int| 0 <= i < ss.len() ==> #[trigger] stmt_fits(ss[i], d),
    decreases ss.len(),
{
    if ss.len() > 0 {
        lemma_stmts_fit(ss.drop_last(), d);
        assert forall|i: int| 0 <= i < ss.len() implies #[trigger] stmt_fits(ss[i], d) by {
            if i < ss.len() - 1 {
                assert(ss.drop_last()[i] == ss[i]);
            }
        }
    }
}

/// The state the compiler starts in.
pub open spec fn initial_state() -> CState {
    CState {
        chunk: empty_builder(),
        stack: Seq::empty(),
        locals: Seq::empty(),
        depth: 0,
        error: None,
    }
}

/// What compiling the statements of `ast` from the `i`-th on gives, in
/// state `s`: the first error a statement leaves, else the script's chunk.
pub open spec fn compile_from(src: Seq<u8>, s: CState, ast: Seq<Statement>, i: int) -> Result<
    ChunkModel,
    DiagModel,
>
    decreases ast.len() - i,
{
    if 0 <= i < ast.len() {
        let s1 = c_stmt(src, s, ast[i]);
        match s1.error {
            Some(d) => Err(d),
            None => compile_from(src, s1, ast, i + 1),
        }
    } else {
        let s1 = emit_blank(s, OpCode::Return);
        Ok(
            ChunkModel {
                name: "<script>"@,
                code: s1.chunk.code,
                constants: s1.chunk.constants,
                lines: s1.chunk.lines,
            },
        )
    }
}

/// What compiling the program `ast` of source `src` gives.
pub open spec fn spec_compile(src: Seq<u8>, ast: Seq<Statement>) -> Result<ChunkModel, DiagModel> {
    compile_from(src, initial_state(), ast, 0)
}

pub open spec fn result_model(r: Result<Chunk, Diagnostic>) -> Result<ChunkModel, DiagModel> {
    match r {
        Ok(c) => Ok(c.model()),
        Err(d) => Err(diag_model(d)),
    }
}

/// A step of compiling adds instructions and keeps the chunks of the
/// enclosing functions and the scope depth.
pub open spec fn framed(a: CState, b: CState) -> bool {
    &&& b.chunk.code.len() >= a.chunk.code.len()
    &&& b.stack == a.stack
    &&& b.depth == a.depth
}

proof fn lemma_pops(b: BuilderModel, n: nat)
    ensures
        pops(b, n).code.len() == b.code.len() + n,
    decreases n,
{
    if n > 0 {
        lemma_pops(b, (n - 1) as nat);
    }
}

// ---------------------------------------------------------------------
// The compiler
// ---------------------------------------------------------------------

impl Error {
    pub fn get_title(&self) -> (r: &'static str)
        ensures
            r@ == self.spec_title(),
    {
        match self {
            Error::TooBigJump => "Too Big Jump",
            Error::TooManyConstants => "Too Many Constants",
            Error::TooManyArguments => "Too Many Arguments",
            Error::TooManyParameters => "Too Many Parameters",
            Error::VariableAlreadyExists => "Variable Already Exists",
            Error::BuiltinNotFound => "Builtin Not Found",
        }
    }

    pub fn get_message(&self, value: &str) -> (r: String)
        ensures
            r@ == self.spec_message(value@),
    {
        match self {
            Error::TooBigJump | Error::TooManyConstants => String::from_str(
                "This is likely an error with the language",
            ),
            Error::TooManyArguments | Error::TooManyParameters => String::from_str(
                "There is a limit of 255 arguments for a function",
            ),
            Error::VariableAlreadyExists => {
                let mut m = String::from_str("Variable '");
                m.append(value);
                m.append("' has been defined already");
                m
            },
            Error::BuiltinNotFound => {
                let mut m = String::from_str("Could not find value in module '");
                m.append(value);
                m.append("'");
                m
            },
        }
    }
}

fn is_maths_item(item: &str) -> (r: bool)
    ensures
        r == maths_item(item@),
{
    eq(item, "PI") || eq(item, "E") || eq(item, "INFINITY") || eq(item, "floor") || eq(item, "ceil")
        || eq(item, "round") || eq(item, "abs") || eq(item, "sqrt") || eq(item, "cbrt") || eq(
        item,
        "exp",
    ) || eq(item, "pow") || eq(item, "log") || eq(item, "ln") || eq(item, "sin") || eq(item, "cos")
        || eq(item, "tan") || eq(item, "asin") || eq(item, "acos") || eq(item, "atan") || eq(
        item,
        "sinh",
    ) || eq(item, "cosh") || eq(item, "tanh") || eq(item, "asinh") || eq(item, "acosh") || eq(
        item,
        "atanh",
    ) || eq(item, "isNan") || eq(item, "radiansToDegrees") || eq(item, "degreesToRadians")
}

fn is_string_item(item: &str) -> (r: bool)
    ensures
        r == string_item(item@),
{
    eq(item, "length") || eq(item, "trim") || eq(item, "trimStart") || eq(item, "trimEnd") || eq(
        item,
        "repeat",
    ) || eq(item, "includes") || eq(item, "startsWith") || eq(item, "endsWith") || eq(
        item,
        "toLowerCase",
    ) || eq(item, "toUpperCase") || eq(item, "toNumber")
}

/// Whether `item` is an item of the built-in module `module`.
pub fn builtin_exists_exec(module: &str, item: &str) -> (r: bool)
    ensures
        r == builtin_exists(module@, item@),
{
    proof {
        reveal_strlit("maths");
        reveal_strlit("string");
    }
    assert("maths"@ != "string"@) by {
        assert("maths"@.len() != "string"@.len());
    }
    if eq(module, "maths") {
        is_maths_item(item)
    } else if eq(module, "string") {
        is_string_item(item)
    } else {
        false
    }
}

proof fn lemma_trailing_len(locals: Seq<(Seq<char>, u8)>, d: u8)
    ensures
        trailing(locals, d) <= locals.len(),
    decreases locals.len(),
{
    if locals.len() > 0 {
        lemma_trailing_len(locals.drop_last(), d);
    }
}

/// A local variable: its name and the scope depth it was declared at.
struct Local<'s> {
    name: &'s str,
    depth: u8,
}

struct Compiler<'s> {
    source: &'s str,
    chunk: ChunkBuilder,
    chunk_stack: Vec<ChunkBuilder>,
    locals: Vec<Local<'s>>,
    scope_depth: u8,
    error: Option<Diagnostic>,
}

spec fn local_model<'s>(l: Local<'s>) -> (Seq<char>, u8) {
    (l.name@, l.depth)
}

spec fn builder_model(b: ChunkBuilder) -> BuilderModel {
    b.model()
}

impl<'s> Compiler<'s> {
    spec fn src(&self) -> Seq<u8> {
        bytes_of(self.source)
    }

    spec fn model(&self) -> CState {
        CState {
            chunk: self.chunk.model(),
            stack: self.chunk_stack@.map_values(|b: ChunkBuilder| builder_model(b)),
            locals: self.locals@.map_values(|l: Local<'s>| local_model(l)),
            depth: self.scope_depth,
            error: match self.error {
                Some(d) => Some(diag_model(d)),
                None => None,
            },
        }
    }

    fn new(source: &'s str) -> (r: Self)
        ensures
            r.source == source,
            r.model() == initial_state(),
    {
        let r = Compiler {
            source,
            chunk: ChunkBuilder::new(),
            chunk_stack: Vec::new(),
            locals: Vec::new(),
            scope_depth: 0,
            error: None,
        };
        assert(r.model() =~= initial_state());
        r
    }

    fn emit_opcode(&mut self, span: Span, code: OpCode)
        requires
            lines_fit(old(self).src()),
        ensures
            final(self).source == old(self).source,
            final(self).model() == emit(old(self).src(), old(self).model(), span, code),
    {
        let line = span.get_line_number(self.source);
        self.chunk.write_opcode(code, line);
    }

    fn emit_opcode_blank(&mut self, code: OpCode)
        ensures
            final(self).source == old(self).source,
            final(self).model() == emit_blank(old(self).model(), code),
    {
        self.chunk.write_opcode(code, 0);
    }

    fn error(&mut self, kind: Error, span: Span, value: &str)
        requires
            lines_fit(old(self).src()),
        ensures
            final(self).source == old(self).source,
            final(self).model() == fail(old(self).src(), old(self).model(), kind, span, value@),
    {
        let line = span.get_line_number(self.source);
        let mut lines: Vec<LineNumber> = Vec::new();
        lines.push(line);
        let title = String::from_str(kind.get_title());
        let message = kind.get_message(value);
        self.error = Some(Diagnostic { title, message, lines });
        assert(self.model().error =~= fail(old(self).src(), old(self).model(), kind, span, value@).error);
    }

    fn emit_constant(&mut self, span: Span, value: Constant)
        requires
            lines_fit(old(self).src()),
        ensures
            final(self).source == old(self).source,
            final(self).model() == emit_constant(old(self).src(), old(self).model(), span, value.model()),
    {
        let index = self.chunk.add_constant(value);
        if index < 256 {
            self.emit_opcode(span, OpCode::Constant(index as u8));
        } else if index < 65536 {
            self.emit_opcode(span, OpCode::ConstantLong(index as u16));
        } else {
            self.error(Error::TooManyConstants, span, "");
        }
    }

    fn emit_global(&mut self, span: Span, access: GlobalAccess, name: &str)
        requires
            lines_fit(old(self).src()),
        ensures
            final(self).source == old(self).source,
            final(self).model() == emit_global(old(self).src(), old(self).model(), span, access, name@),
    {
        let index = self.chunk.add_constant_string(name);
        if index < 256 {
            let i = index as u8;
            let op = match access {
                GlobalAccess::Define => OpCode::DefineGlobal(i),
                GlobalAccess::Get => OpCode::GetGlobal(i),
                GlobalAccess::Assign => OpCode::SetGlobal(i),
            };
            self.emit_opcode(span, op);
        } else {
            self.error(Error::TooManyConstants, span, "");
        }
    }

    /// Writes a jump whose distance is set later, and gives its position.
    fn emit_jump(&mut self, span: Span, code: OpCode) -> (r: usize)
        requires
            lines_fit(old(self).src()),
        ensures
            final(self).source == old(self).source,
            r == old(self).model().chunk.code.len(),
            final(self).model() == emit(old(self).src(), old(self).model(), span, code),
    {
        let r = self.chunk.length();
        self.emit_opcode(span, code);
        r
    }

    /// Makes the jump at `position` land after the last instruction.
    fn patch_jump(&mut self, span: Span, position: usize)
        requires
            lines_fit(old(self).src()),
            position < old(self).model().chunk.code.len(),
        ensures
            final(self).source == old(self).source,
            final(self).model() == patch(old(self).src(), old(self).model(), span, position as int),
    {
        let jump = self.chunk.length() - position;
        if jump > 65535 {
            self.error(Error::TooBigJump, span, "");
        }
        let offset = (jump % 65536) as u16;
        let op = match self.chunk.opcode(position) {
            OpCode::Jump(_) => OpCode::Jump(offset),
            OpCode::JumpIfFalse(_) => OpCode::JumpIfFalse(offset),
            OpCode::JumpIfNull(_) => OpCode::JumpIfNull(offset),
            other => other,
        };
        self.chunk.patch_opcode(position, op);
    }

    fn begin_scope(&mut self)
        requires
            old(self).scope_depth < 255,
        ensures
            final(self).source == old(self).source,
            final(self).model() == begin_scope(old(self).model()),
    {
        self.scope_depth = self.scope_depth + 1;
    }

    /// Ends a scope: its locals leave the stack, each by a `Pop`.
    fn close_scope(&mut self)
        requires
            old(self).scope_depth > 0,
        ensures
            final(self).source == old(self).source,
            final(self).model() == end_scope(old(self).model()),
    {
        let ghost s0 = self.model();
        let ghost n0 = trailing(s0.locals, s0.depth);
        proof {
            lemma_trailing_len(s0.locals, s0.depth);
            assert(s0.locals.subrange(0, s0.locals.len() as int) =~= s0.locals);
        }
        let ghost mut k: nat = 0;
        let mut go = true;
        while go
            invariant
                self.source == old(self).source,
                self.scope_depth == s0.depth,
                self.model().stack == s0.stack,
                self.model().error == s0.error,
                k <= n0,
                n0 <= s0.locals.len(),
                self.model().locals == s0.locals.subrange(0, s0.locals.len() - k),
                trailing(self.model().locals, s0.depth) == n0 - k,
                self.model().chunk == crate::compiler::pops(s0.chunk, k),
                !go ==> k == n0,
            decreases self.locals@.len() + if go { 1int } else { 0int },
        {
            let n = self.locals.len();
            if n > 0 && self.locals[n - 1].depth == self.scope_depth {
                let ghost before = self.model().locals;
                self.locals.pop();
                proof {
                    assert(self.model().locals =~= before.drop_last());
                    assert(before.subrange(0, before.len() - 1) =~= s0.locals.subrange(0, s0.locals.len() - (k + 1)));
                    k = k + 1;
                }
                self.emit_opcode_blank(OpCode::Pop);
            } else {
                go = false;
            }
        }
        self.scope_depth = self.scope_depth - 1;
    }

    /// The slot of the innermost local named `name`.
    fn local_index(&self, name: &str) -> (r: Option<usize>)
        ensures
            match r {
                Some(i) => i as int == last_local(self.model().locals, name@),
                None => last_local(self.model().locals, name@) == -1,
            },
    {
        let ghost ls = self.model().locals;
        let mut i = self.locals.len();
        assert(ls.subrange(0, i as int) =~= ls);
        while i > 0
            invariant
                ls == self.model().locals,
                i <= ls.len(),
                last_local(ls.subrange(0, i as int), name@) == last_local(ls, name@),
            decreases i,
        {
            assert(ls.subrange(0, i as int).drop_last() =~= ls.subrange(0, i - 1));
            if eq(self.locals[i - 1].name, name) {
                return Some(i - 1);
            }
            i = i - 1;
        }
        None
    }

    /// Whether a local named `name` was declared at the current depth.
    fn declared_here(&self, name: &str) -> (r: bool)
        ensures
            r == self.model().locals.contains((name@, self.scope_depth)),
    {
        let ghost ls = self.model().locals;
        let mut i: usize = 0;
        while i < self.locals.len()
            invariant
                ls == self.model().locals,
                i <= ls.len(),
                forall|k: int| 0 <= k < i ==> ls[k] != (name@, self.scope_depth),
            decreases ls.len() - i,
        {
            if self.locals[i].depth == self.scope_depth && eq(self.locals[i].name, name) {
                assert(ls[i as int] == (name@, self.scope_depth));
                return true;
            }
            i = i + 1;
        }
        false
    }

    fn define_variable(&mut self, name: &'s str, span: Span)
        requires
            lines_fit(old(self).src()),
        ensures
            final(self).source == old(self).source,
            final(self).model() == define(old(self).src(), old(self).model(), name@, span),
    {
        if self.scope_depth > 0 {
            if self.declared_here(name) {
                self.error(Error::VariableAlreadyExists, span, name);
            } else {
                let ghost before = self.model().locals;
                self.locals.push(Local { name, depth: self.scope_depth });
                assert(self.model().locals =~= before.push((name@, self.scope_depth)));
            }
        } else {
            self.emit_global(span, GlobalAccess::Define, name);
        }
    }

    fn new_chunk(&mut self)
        requires
            old(self).scope_depth < 255,
        ensures
            final(self).source == old(self).source,
            final(self).model() == (CState {
                chunk: empty_builder(),
                stack: old(self).model().stack.push(old(self).model().chunk),
                depth: (old(self).scope_depth + 1) as u8,
                ..old(self).model()
            }),
    {
        let mut fresh = ChunkBuilder::new();
        std::mem::swap(&mut self.chunk, &mut fresh);
        let ghost before = self.model().stack;
        self.chunk_stack.push(fresh);
        self.scope_depth = self.scope_depth + 1;
        assert(self.model().stack =~= before.push(builder_model(fresh)));
    }

    fn finish_chunk(&mut self, name: &str) -> (r: Chunk)
        requires
            old(self).model().stack.len() > 0,
            old(self).scope_depth > 0,
        ensures
            final(self).source == old(self).source,
            r.model() == (ChunkModel {
                name: name@,
                code: old(self).model().chunk.code,
                constants: old(self).model().chunk.constants,
                lines: old(self).model().chunk.lines,
            }),
            final(self).model() == end_scope(
                CState {
                    chunk: old(self).model().stack.last(),
                    stack: old(self).model().stack.drop_last(),
                    ..old(self).model()
                },
            ),
    {
        let ghost before = self.model().stack;
        let mut outer = self.chunk_stack.pop().unwrap();
        assert(self.model().stack =~= before.drop_last());
        std::mem::swap(&mut self.chunk, &mut outer);
        self.close_scope();
        outer.finalize(String::from_str(name))
    }

    fn compile_expression(&mut self, e: &'s Expression<'s>)
        requires
            lines_fit(old(self).src()),
            expr_fits(*e, old(self).scope_depth as int),
        ensures
            final(self).source == old(self).source,
            final(self).model() == c_expr(old(self).src(), old(self).model(), *e),
            framed(old(self).model(), final(self).model()),
        decreases e, 4nat,
    {
        let span = e.span;
        match &e.expr {
            Expr::Literal { type_, value } => match type_ {
                LiteralType::True => self.emit_opcode(span, OpCode::True),
                LiteralType::False => self.emit_opcode(span, OpCode::False),
                LiteralType::Null => self.emit_opcode(span, OpCode::Null),
                LiteralType::Number => {
                    let mut text = String::from_str("");
                    proof {
                        reveal_strlit("");
                    }
                    crate::formatter::write_number(&mut text, value);
                    assert(text@ =~= number_text(value@));
                    self.emit_constant(span, Constant::number(text));
                },
                LiteralType::String => self.emit_constant(
                    span,
                    Constant::string(String::from_str(value)),
                ),
            },
            Expr::Group { expression } => self.compile_expression(expression),
            Expr::Comment { expression, .. } => self.compile_expression(expression),
            Expr::Unary { operator, expression } => {
                self.compile_expression(expression);
                match operator {
                    UnaryOperator::Minus => self.emit_opcode(span, OpCode::Negate),
                    UnaryOperator::Not => self.emit_opcode(span, OpCode::Not),
                }
            },
            Expr::Binary { .. } => self.compile_binary(e),
            Expr::Assignment { identifier, expression } => {
                let index = self.local_index(identifier);
                self.compile_expression(expression);
                match index {
                    Some(i) => self.emit_opcode(span, OpCode::SetLocal((i % 256) as u8)),
                    None => self.emit_global(span, GlobalAccess::Assign, identifier),
                }
            },
            Expr::Variable { name } => {
                let index = self.local_index(name);
                match index {
                    Some(i) => self.emit_opcode(span, OpCode::GetLocal((i % 256) as u8)),
                    None => self.emit_global(span, GlobalAccess::Get, name),
                }
            },
            Expr::Call { expression, arguments } => {
                self.compile_expression(expression);
                if arguments.len() > 255 {
                    self.error(Error::TooManyArguments, span, "");
                }
                self.compile_arguments(arguments);
                self.emit_opcode(span, OpCode::Call((arguments.len() % 256) as u8));
            },
            Expr::Function { .. } => self.compile_function(e),
            _ => {},
        }
    }

    fn compile_arguments(&mut self, arguments: &'s Vec<Expression<'s>>)
        requires
            lines_fit(old(self).src()),
            exprs_fit(arguments@, old(self).scope_depth as int),
        ensures
            final(self).source == old(self).source,
            final(self).model() == c_exprs(old(self).src(), old(self).model(), arguments@),
            framed(old(self).model(), final(self).model()),
        decreases arguments, 0nat,
    {
        let ghost s0 = self.model();
        let mut i: usize = 0;
        proof {
            lemma_exprs_fit(arguments@, s0.depth as int);
        }
        assert(arguments@.subrange(0, 0) =~= Seq::<Expression>::empty());
        while i < arguments.len()
            invariant
                self.source == old(self).source,
                lines_fit(self.src()),
                s0 == old(self).model(),
                i <= arguments.len(),
                forall|k: int| 0 <= k < arguments@.len() ==> #[trigger] expr_fits(arguments@[k], s0.depth as int),
                self.model() == c_exprs(self.src(), s0, arguments@.subrange(0, i as int)),
                framed(s0, self.model()),
            decreases arguments.len() - i,
        {
            assert(arguments@.subrange(0, i + 1).drop_last() =~= arguments@.subrange(0, i as int));
            assert(expr_fits(arguments@[i as int], s0.depth as int));
            self.compile_expression(&arguments[i]);
            i = i + 1;
        }
        assert(arguments@.subrange(0, arguments.len() as int) =~= arguments@);
    }

    fn compile_binary(&mut self, e: &'s Expression<'s>)
        requires
            lines_fit(old(self).src()),
            expr_fits(*e, old(self).scope_depth as int),
        ensures
            final(self).source == old(self).source,
            final(self).model() == c_binary(old(self).src(), old(self).model(), *e),
            framed(old(self).model(), final(self).model()),
        decreases e, 3nat,
    {
        let span = e.span;
        match &e.expr {
            Expr::Binary { operator, left, right } => match operator {
                BinaryOperator::And => {
                    self.compile_expression(left);
                    let j = self.emit_jump(span, OpCode::JumpIfFalse(65535));
                    self.emit_opcode(span, OpCode::Pop);
                    self.compile_expression(right);
                    self.patch_jump(span, j);
                },
                BinaryOperator::Or | BinaryOperator::Nullish => {
                    self.compile_expression(left);
                    let code = match operator {
                        BinaryOperator::Or => OpCode::JumpIfFalse(65535),
                        _ => OpCode::JumpIfNull(65535),
                    };
                    let j = self.emit_jump(span, code);
                    let k = self.emit_jump(span, OpCode::Jump(65535));
                    self.patch_jump(span, j);
                    self.emit_opcode(span, OpCode::Pop);
                    self.compile_expression(right);
                    self.patch_jump(span, k);
                },
                BinaryOperator::Pipeline => self.compile_pipeline(e),
                _ => {
                    self.compile_expression(left);
                    self.compile_expression(right);
                    match operator {
                        BinaryOperator::Plus => self.emit_opcode(span, OpCode::Add),
                        BinaryOperator::Minus => self.emit_opcode(span, OpCode::Subtract),
                        BinaryOperator::Multiply => self.emit_opcode(span, OpCode::Multiply),
                        BinaryOperator::Divide => self.emit_opcode(span, OpCode::Divide),
                        BinaryOperator::Equal => self.emit_opcode(span, OpCode::Equal),
                        BinaryOperator::Greater => self.emit_opcode(span, OpCode::Greater),
                        BinaryOperator::Less => self.emit_opcode(span, OpCode::Less),
                        BinaryOperator::NotEqual => {
                            self.emit_opcode(span, OpCode::Equal);
                            self.emit_opcode(span, OpCode::Not);
                        },
                        BinaryOperator::GreaterEqual => {
                            self.emit_opcode(span, OpCode::Less);
                            self.emit_opcode(span, OpCode::Not);
                        },
                        _ => {
                            self.emit_opcode(span, OpCode::Greater);
                            self.emit_opcode(span, OpCode::Not);
                        },
                    }
                },
            },
            _ => {},
        }
    }

    fn compile_pipeline(&mut self, e: &'s Expression<'s>)
        requires
            lines_fit(old(self).src()),
            expr_fits(*e, old(self).scope_depth as int),
            e.expr is Binary,
            e.expr->Binary_operator == BinaryOperator::Pipeline,
        ensures
            final(self).source == old(self).source,
            final(self).model() == c_pipeline(old(self).src(), old(self).model(), *e),
            framed(old(self).model(), final(self).model()),
        decreases e, 2nat,
    {
        match &e.expr {
            Expr::Binary { left, right, .. } => {
                let ghost d = old(self).scope_depth as int;
                proof {
                    assert(expr_fits(**left, d));
                    assert(expr_fits(**right, d));
                    assert(pipe_fits(**right));
                    if right.expr is Comment {
                        assert(expr_fits(*right.expr->Comment_expression, d));
                    }
                }
                match &right.expr {
                    Expr::Comment { expression, .. } => self.compile_pipe_target(e, left, expression),
                    _ => self.compile_pipe_target(e, left, right),
                }
            },
            _ => {},
        }
    }

    /// Compiles the pipeline `e` whose right operand, a comment taken off,
    /// is `r`.
    fn compile_pipe_target(
        &mut self,
        e: &'s Expression<'s>,
        left: &'s Expression<'s>,
        r: &'s Expression<'s>,
    )
        requires
            lines_fit(old(self).src()),
            e.expr is Binary,
            *left == *e.expr->Binary_left,
            *r == piped(*e.expr->Binary_right),
            expr_fits(*left, old(self).scope_depth as int),
            expr_fits(*r, old(self).scope_depth as int),
            pipe_fits(*e.expr->Binary_right),
        ensures
            final(self).source == old(self).source,
            final(self).model() == c_pipeline(old(self).src(), old(self).model(), *e),
            framed(old(self).model(), final(self).model()),
        decreases e, 1nat,
    {
        let is_call = match &r.expr {
            Expr::Call { .. } => true,
            _ => false,
        };
        if is_call {
            self.compile_pipe_call(e, left, r);
        } else {
            self.compile_pipe_value(e, left, r);
        }
    }

    /// Compiles the pipeline `e` whose right operand, a comment taken off,
    /// is `r`, no call: the function, then the piped value as its argument.
    fn compile_pipe_value(
        &mut self,
        e: &'s Expression<'s>,
        left: &'s Expression<'s>,
        r: &'s Expression<'s>,
    )
        requires
            lines_fit(old(self).src()),
            e.expr is Binary,
            *left == *e.expr->Binary_left,
            *r == piped(*e.expr->Binary_right),
            !(r.expr is Call),
            expr_fits(*left, old(self).scope_depth as int),
            expr_fits(*r, old(self).scope_depth as int),
        ensures
            final(self).source == old(self).source,
            final(self).model() == c_pipeline(old(self).src(), old(self).model(), *e),
            framed(old(self).model(), final(self).model()),
        decreases e, 0nat,
    {
        let ghost s0 = self.model();
        self.compile_expression(r);
        self.compile_expression(left);
        let ghost s2 = self.model();
        self.emit_opcode(e.span, OpCode::Call(1));
        proof {
            let src = self.src();
            assert(s2 == c_expr(src, c_expr(src, s0, *r), *left));
            assert(c_pipeline(src, s0, *e) == emit(src, s2, e.span, OpCode::Call(1)));
        }
    }

    /// Compiles the pipeline `e` whose right operand, a comment taken off,
    /// is the call `r`: the callee, then the piped value and the arguments.
    fn compile_pipe_call(
        &mut self,
        e: &'s Expression<'s>,
        left: &'s Expression<'s>,
        r: &'s Expression<'s>,
    )
        requires
            lines_fit(old(self).src()),
            e.expr is Binary,
            *left == *e.expr->Binary_left,
            *r == piped(*e.expr->Binary_right),
            r.expr is Call,
            expr_fits(*left, old(self).scope_depth as int),
            expr_fits(*r, old(self).scope_depth as int),
            r.expr->Call_arguments.len() % 256 != 255,
        ensures
            final(self).source == old(self).source,
            final(self).model() == c_pipeline(old(self).src(), old(self).model(), *e),
            framed(old(self).model(), final(self).model()),
        decreases e, 0nat,
    {
        let span = e.span;
        let ghost s0 = self.model();
        match &r.expr {
            Expr::Call { expression, arguments } => {
                self.compile_expression(expression);
                if arguments.len() > 254 {
                    self.error(Error::TooManyArguments, span, "");
                }
                let ghost s2 = self.model();
                self.compile_expression(left);
                self.compile_arguments(arguments);
                let ghost s4 = self.model();
                let count = ((arguments.len() % 256) + 1) as u8;
                self.emit_opcode(span, OpCode::Call(count));
                proof {
                    let src = self.src();
                    assert(s4 == c_exprs(src, c_expr(src, s2, *left), arguments@));
                    assert(c_pipeline(src, s0, *e) == emit(
                        src,
                        c_exprs(src, c_expr(src, s2, *left), arguments@),
                        span,
                        OpCode::Call(count),
                    ));
                }
            },
            _ => {},
        }
    }

    fn compile_function(&mut self, e: &'s Expression<'s>)
        requires
            lines_fit(old(self).src()),
            expr_fits(*e, old(self).scope_depth as int),
        ensures
            final(self).source == old(self).source,
            final(self).model() == c_function(old(self).src(), old(self).model(), *e),
            framed(old(self).model(), final(self).model()),
        decreases e, 1nat,
    {
        let span = e.span;
        match &e.expr {
            Expr::Function { parameters, body, name, .. } => {
                if parameters.len() > 255 {
                    self.error(Error::TooManyParameters, span, "");
                }
                let ghost s1 = self.model();
                assert(s1.stack.push(s1.chunk).drop_last() =~= s1.stack);
                self.new_chunk();
                let d = self.scope_depth;
                let ghost s2 = self.model();
                let mut i: usize = 0;
                assert(s2.locals + Seq::new(0, |k: int| (parameters@[k].name@, d)) =~= s2.locals);
                while i < parameters.len()
                    invariant
                        self.source == old(self).source,
                        lines_fit(self.src()),
                        d == self.scope_depth,
                        i <= parameters.len(),
                        self.model() == (CState {
                            locals: s2.locals + Seq::new(i as nat, |k: int| (parameters@[k].name@, d)),
                            ..s2
                        }),
                    decreases parameters.len() - i,
                {
                    let ghost before = self.model().locals;
                    self.locals.push(Local { name: parameters[i].name, depth: d });
                    assert(self.model().locals =~= before.push((parameters@[i as int].name@, d)));
                    assert(self.model().locals =~= s2.locals + Seq::new(
                        (i + 1) as nat,
                        |k: int| (parameters@[k].name@, d),
                    ));
                    i = i + 1;
                }
                assert(Seq::new(parameters@.len(), |k: int| (parameters@[k].name@, d))
                    =~= parameter_locals(parameters@, d));
                self.compile_statement(body);
                self.emit_opcode(span, OpCode::Null);
                self.emit_opcode(span, OpCode::Return);
                let fname: &str = match name {
                    Some(n) => n,
                    None => "",
                };
                proof {
                    reveal_strlit("");
                    assert(fname@ == function_name(*name));
                }
                let ghost s4 = self.model();
                let chunk = self.finish_chunk(fname);
                proof {
                    lemma_pops(s4.stack.last(), trailing(s4.locals, s4.depth));
                }
                self.emit_constant(
                    span,
                    Constant::function(String::from_str(fname), (parameters.len() % 256) as u8, chunk),
                );
            },
            _ => {},
        }
    }

    fn compile_statement(&mut self, st: &'s Statement<'s>)
        requires
            lines_fit(old(self).src()),
            stmt_fits(*st, old(self).scope_depth as int),
        ensures
            final(self).source == old(self).source,
            final(self).model() == c_stmt(old(self).src(), old(self).model(), *st),
            framed(old(self).model(), final(self).model()),
        decreases st, 2nat,
    {
        let span = st.span;
        match &st.stmt {
            Stmt::Declaration { identifier, expression, .. } => {
                match expression {
                    Some(x) => self.compile_expression(x),
                    None => self.emit_opcode(span, OpCode::Null),
                }
                match identifier {
                    DeclarationIdentifier::Variable(n) => self.define_variable(n, span),
                    _ => {},
                }
            },
            Stmt::If { .. } => self.compile_if(st),
            Stmt::Import { module, items } => self.compile_imports(span, module, items),
            Stmt::While { .. } => self.compile_while(st),
            Stmt::Return { expression } => {
                match expression {
                    Some(x) => self.compile_expression(x),
                    None => self.emit_opcode(span, OpCode::Null),
                }
                self.emit_opcode(span, OpCode::Return);
            },
            Stmt::Block { body } => {
                self.begin_scope();
                self.compile_statements(body);
                let ghost s1 = self.model();
                self.close_scope();
                proof {
                    lemma_pops(s1.chunk, trailing(s1.locals, s1.depth));
                }
            },
            Stmt::Expression { expression } => {
                self.compile_expression(expression);
                self.emit_opcode_blank(OpCode::Pop);
            },
            Stmt::Comment { .. } => {},
        }
    }

    fn compile_statements(&mut self, body: &'s Vec<Statement<'s>>)
        requires
            lines_fit(old(self).src()),
            stmts_fit(body@, old(self).scope_depth as int),
        ensures
            final(self).source == old(self).source,
            final(self).model() == c_stmts(old(self).src(), old(self).model(), body@),
            framed(old(self).model(), final(self).model()),
        decreases body, 0nat,
    {
        let ghost s0 = self.model();
        let mut i: usize = 0;
        proof {
            lemma_stmts_fit(body@, s0.depth as int);
        }
        assert(body@.subrange(0, 0) =~= Seq::<Statement>::empty());
        while i < body.len()
            invariant
                self.source == old(self).source,
                lines_fit(self.src()),
                s0 == old(self).model(),
                i <= body.len(),
                forall|k: int| 0 <= k < body@.len() ==> #[trigger] stmt_fits(body@[k], s0.depth as int),
                self.model() == c_stmts(self.src(), s0, body@.subrange(0, i as int)),
                framed(s0, self.model()),
            decreases body.len() - i,
        {
            assert(body@.subrange(0, i + 1).drop_last() =~= body@.subrange(0, i as int));
            assert(stmt_fits(body@[i as int], s0.depth as int));
            self.compile_statement(&body[i]);
            i = i + 1;
        }
        assert(body@.subrange(0, body.len() as int) =~= body@);
    }

    fn compile_if(&mut self, st: &'s Statement<'s>)
        requires
            lines_fit(old(self).src()),
            stmt_fits(*st, old(self).scope_depth as int),
        ensures
            final(self).source == old(self).source,
            final(self).model() == c_if(old(self).src(), old(self).model(), *st),
            framed(old(self).model(), final(self).model()),
        decreases st, 1nat,
    {
        let span = st.span;
        match &st.stmt {
            Stmt::If { condition, then, otherwise } => {
                self.compile_expression(condition);
                let j = self.emit_jump(span, OpCode::JumpIfFalse(65535));
                self.emit_opcode(span, OpCode::Pop);
                self.compile_statement(then);
                match otherwise {
                    Some(o) => {
                        let k = self.emit_jump(span, OpCode::Jump(65535));
                        self.patch_jump(span, j);
                        self.emit_opcode(span, OpCode::Pop);
                        self.compile_statement(o);
                        self.patch_jump(span, k);
                    },
                    None => {
                        self.patch_jump(span, j);
                        self.emit_opcode(span, OpCode::Pop);
                    },
                }
            },
            _ => {},
        }
    }

    fn compile_while(&mut self, st: &'s Statement<'s>)
        requires
            lines_fit(old(self).src()),
            stmt_fits(*st, old(self).scope_depth as int),
        ensures
            final(self).source == old(self).source,
            final(self).model() == c_while(old(self).src(), old(self).model(), *st),
            framed(old(self).model(), final(self).model()),
        decreases st, 1nat,
    {
        let span = st.span;
        match &st.stmt {
            Stmt::While { condition, body } => {
                let start = self.chunk.length();
                self.compile_expression(condition);
                let j = self.emit_jump(span, OpCode::JumpIfFalse(65535));
                self.emit_opcode(span, OpCode::Pop);
                self.compile_statement(body);
                let offset = self.chunk.length() - start;
                if offset > 65535 {
                    self.error(Error::TooBigJump, span, "");
                }
                self.emit_opcode(span, OpCode::Loop((offset % 65536) as u16));
                self.patch_jump(span, j);
                self.emit_opcode(span, OpCode::Pop);
            },
            _ => {},
        }
    }

    fn compile_imports(&mut self, span: Span, module: &'s str, items: &'s Vec<ImportItem<'s>>)
        requires
            lines_fit(old(self).src()),
        ensures
            final(self).source == old(self).source,
            final(self).model() == c_imports(old(self).src(), old(self).model(), span, module@, items@),
            framed(old(self).model(), final(self).model()),
    {
        let ghost s0 = self.model();
        let mut i: usize = 0;
        assert(items@.subrange(0, 0) =~= Seq::<ImportItem>::empty());
        while i < items.len()
            invariant
                self.source == old(self).source,
                lines_fit(self.src()),
                s0 == old(self).model(),
                i <= items.len(),
                self.model() == c_imports(self.src(), s0, span, module@, items@.subrange(0, i as int)),
                framed(s0, self.model()),
            decreases items.len() - i,
        {
            assert(items@.subrange(0, i + 1).drop_last() =~= items@.subrange(0, i as int));
            let item = items[i];
            if builtin_exists_exec(module, item.name) {
                self.emit_constant(
                    span,
                    Constant::builtin(String::from_str(module), String::from_str(item.name)),
                );
                self.define_variable(item.name, item.span);
            } else {
                self.error(Error::BuiltinNotFound, item.span, module);
            }
            i = i + 1;
        }
        assert(items@.subrange(0, items.len() as int) =~= items@);
    }
}

/// Compiles a program into the chunk of its script. An error that a
/// top-level statement leaves stops the compilation and is returned; the
/// program's chunk ends in a `Return`.
pub fn compile<'s>(source: &'s str, ast: &'s [Statement<'s>]) -> (r: Result<Chunk, Diagnostic>)
    requires
        lines_fit(bytes_of(source)),
        stmts_fit(ast@, 0),
    ensures
        result_model(r) == spec_compile(bytes_of(source), ast@),
{
    let mut compiler = Compiler::new(source);
    let mut i: usize = 0;
    proof {
        lemma_stmts_fit(ast@, 0);
    }
    while i < ast.len()
        invariant
            compiler.source == source,
            lines_fit(bytes_of(source)),
            i <= ast.len(),
            forall|k: int| 0 <= k < ast@.len() ==> #[trigger] stmt_fits(ast@[k], 0),
            compiler.model().error is None,
            compiler.model().depth == 0,
            compiler.model().stack.len() == 0,
            compile_from(bytes_of(source), compiler.model(), ast@, i as int) == spec_compile(
                bytes_of(source),
                ast@,
            ),
        decreases ast.len() - i,
    {
        assert(stmt_fits(ast@[i as int], 0));
        compiler.compile_statement(&ast[i]);
        if compiler.error.is_some() {
            return Err(compiler.error.unwrap());
        }
        i = i + 1;
    }
    compiler.emit_opcode_blank(OpCode::Return);
    Ok(compiler.chunk.finalize(String::from_str("<script>")))
}

fn check_pipe(right: &Expression) -> (r: bool)
    ensures
        r == pipe_fits(*right),
{
    match &right.expr {
        Expr::Comment { expression, .. } => match &expression.expr {
            Expr::Call { arguments, .. } => arguments.len() % 256 != 255,
            _ => true,
        },
        Expr::Call { arguments, .. } => arguments.len() % 256 != 255,
        _ => true,
    }
}

fn check_expr(e: &Expression, d: u32) -> (r: bool)
    requires
        d <= 255,
    ensures
        r == expr_fits(*e, d as int),
    decreases e, 1nat,
{
    match &e.expr {
        Expr::Literal { .. } => true,
        Expr::Variable { .. } => true,
        Expr::Group { expression } => check_expr(expression, d),
        Expr::Comment { expression, .. } => check_expr(expression, d),
        Expr::Unary { expression, .. } => check_expr(expression, d),
        Expr::Assignment { expression, .. } => check_expr(expression, d),
        Expr::Binary { operator, left, right } => {
            let pipeline = match operator {
                BinaryOperator::Pipeline => true,
                _ => false,
            };
            check_expr(left, d) && check_expr(right, d) && (!pipeline || check_pipe(right))
        },
        Expr::Call { expression, arguments } => check_expr(expression, d) && check_exprs(
            arguments,
            d,
        ),
        Expr::Function { body, .. } => d < 255 && check_stmt(body, d + 1),
        _ => false,
    }
}

fn check_exprs(es: &Vec<Expression>, d: u32) -> (r: bool)
    requires
        d <= 255,
    ensures
        r == exprs_fit(es@, d as int),
    decreases es, 0nat,
{
    let mut i: usize = 0;
    assert(es@.subrange(0, 0) =~= Seq::<Expression>::empty());
    while i < es.len()
        invariant
            d <= 255,
            i <= es@.len(),
            exprs_fit(es@.subrange(0, i as int), d as int),
        decreases es@.len() - i,
    {
        assert(es@.subrange(0, i + 1).drop_last() =~= es@.subrange(0, i as int));
        if !check_expr(&es[i], d) {
            proof {
                lemma_exprs_fit_prefix(es@, d as int, i + 1);
            }
            return false;
        }
        i = i + 1;
    }
    assert(es@.subrange(0, es@.len() as int) =~= es@);
    true
}

/// The expressions of `es` fit if all of them do, so not if those up to
/// the `j`-th do not.
proof fn lemma_exprs_fit_prefix(es: Seq<Expression>, d: int, j: int)
    requires
        0 <= j <= es.len(),
        !exprs_fit(es.subrange(0, j), d),
    ensures
        !exprs_fit(es, d),
    decreases es.len() - j,
{
    if j < es.len() {
        assert(es.subrange(0, j + 1).drop_last() =~= es.subrange(0, j));
        lemma_exprs_fit_prefix(es, d, j + 1);
    } else {
        assert(es.subrange(0, j) =~= es);
    }
}

proof fn lemma_stmts_fit_prefix(ss: Seq<Statement>, d: int, j: int)
    requires
        0 <= j <= ss.len(),
        !stmts_fit(ss.subrange(0, j), d),
    ensures
        !stmts_fit(ss, d),
    decreases ss.len() - j,
{
    if j < ss.len() {
        assert(ss.subrange(0, j + 1).drop_last() =~= ss.subrange(0, j));
        lemma_stmts_fit_prefix(ss, d, j + 1);
    } else {
        assert(ss.subrange(0, j) =~= ss);
    }
}

fn check_stmt(st: &Statement, d: u32) -> (r: bool)
    requires
        d <= 255,
    ensures
        r == stmt_fits(*st, d as int),
    decreases st, 1nat,
{
    match &st.stmt {
        Stmt::Declaration { identifier, expression, .. } => {
            let variable = match identifier {
                DeclarationIdentifier::Variable(_) => true,
                _ => false,
            };
            variable && match expression {
                Some(x) => check_expr(x, d),
                None => true,
            }
        },
        Stmt::If { condition, then, otherwise } => check_expr(condition, d) && check_stmt(then, d)
            && match otherwise {
            Some(o) => check_stmt(o, d),
            None => true,
        },
        Stmt::Import { .. } => true,
        Stmt::While { condition, body } => check_expr(condition, d) && check_stmt(body, d),
        Stmt::Return { expression } => match expression {
            Some(x) => check_expr(x, d),
            None => true,
        },
        Stmt::Block { body } => d < 255 && check_stmts(body.as_slice(), d + 1),
        Stmt::Expression { expression } => check_expr(expression, d),
        Stmt::Comment { .. } => true,
    }
}

fn check_stmts(ss: &[Statement], d: u32) -> (r: bool)
    requires
        d <= 255,
    ensures
        r == stmts_fit(ss@, d as int),
    decreases ss@, 0nat,
{
    let mut i: usize = 0;
    assert(ss@.subrange(0, 0) =~= Seq::<Statement>::empty());
    while i < ss.len()
        invariant
            d <= 255,
            i <= ss@.len(),
            stmts_fit(ss@.subrange(0, i as int), d as int),
        decreases ss@.len() - i,
    {
        assert(ss@.subrange(0, i + 1).drop_last() =~= ss@.subrange(0, i as int));
        if !check_stmt(&ss[i], d) {
            proof {
                lemma_stmts_fit_prefix(ss@, d as int, i + 1);
            }
            return false;
        }
        i = i + 1;
    }
    assert(ss@.subrange(0, ss@.len() as int) =~= ss@);
    true
}

/// Whether `compile` takes the program: every statement and expression in
/// it is of a kind the compiler handles (no list, dictionary, index, format
/// string or module access, and a declaration binds one variable), scopes
/// nest no deeper than 255, and no pipeline calls with a number of
/// arguments that is 255 more than a multiple of 256.
pub fn is_compilable(ast: &[Statement]) -> (r: bool)
    ensures
        r == stmts_fit(ast@, 0),
{
    check_stmts(ast, 0)
}

} // verus!

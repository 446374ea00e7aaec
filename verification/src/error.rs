//! The errors of the scanner and the compiler, and the messages that
//! describe them.
use crate::token::{LineNumber, Token};
use vstd::prelude::*;
use vstd::string::StringExecFns;

verus! {

#[derive(Debug, Clone, Copy, PartialEq, Eq, Structural)]
pub enum Error {
    UnterminatedString,
    UnknownCharacter,
    VariableAlreadyExists,
    MissingVariableName,
    MissingEndOfFile,
    InvalidAssignmentTarget,
    MissingBracketBeforeParameters,
    MissingBracketBeforeCondition,
    MissingBracketAfterCondition,
    ExpectedNewLine,
    ExpectedEndOfBlock,
    ExpectedBracket,
    ExpectedExpression,
    TooManyArguments,
    TooManyConstants,
    TooBigJump,
    UnknownBinaryOperator,
    UnknownUnaryOperator,
}

/// An error found while compiling, at a token.
#[derive(Debug)]
pub struct CompileError {
    pub error: Error,
    pub token: Token,
}

/// An error found while running, and the lines of the calls it went
/// through.
pub struct RuntimeError {
    pub message: String,
    pub line_numbers: Vec<LineNumber>,
}

/// The message of an error, and a note to go with it.
pub struct Diagnostic {
    pub message: String,
    pub note: Option<String>,
}

/// The errors whose message quotes the token.
pub open spec fn quotes_token(error: Error) -> bool {
    error == Error::UnterminatedString || error == Error::UnknownCharacter || error
        == Error::UnknownBinaryOperator || error == Error::UnknownUnaryOperator || error
        == Error::VariableAlreadyExists
}

/// The message of an error at a token whose characters are `value`.
pub open spec fn error_message(error: Error, value: Seq<char>) -> Seq<char> {
    match error {
        Error::UnterminatedString => "Unterminated String, Missing closing quote "@ + value,
        Error::UnknownCharacter => "Unknown Character '"@ + value + "'"@,
        Error::UnknownBinaryOperator => "Unknown Binary Operator '"@ + value + "'"@,
        Error::UnknownUnaryOperator => "Unknown Unary Operator '"@ + value + "'"@,
        Error::VariableAlreadyExists => "Redefining Exisiting Variable '"@ + value + "'"@,
        Error::MissingVariableName => "Expected Variable Name"@,
        Error::InvalidAssignmentTarget => "Invalid Assignment Target, Must be a Variable"@,
        Error::MissingBracketBeforeCondition => "Expected Bracket '(' Before Condition"@,
        Error::MissingBracketAfterCondition => "Expected Closing Bracket ')' After Condition"@,
        Error::MissingBracketBeforeParameters => "Expected Bracket '(' Before Parameters"@,
        Error::ExpectedNewLine => "Expected New Line After Expression"@,
        Error::ExpectedEndOfBlock => "Expected End of Block"@,
        Error::MissingEndOfFile => "Missing End of File"@,
        Error::TooManyArguments => "Too Many Arguments (Max 255)"@,
        Error::TooManyConstants => "Too Many Constants"@,
        Error::TooBigJump => "Jump Too Large"@,
        Error::ExpectedBracket => "Expected Closing Bracket ')' After Expression"@,
        Error::ExpectedExpression => "Expected Expression"@,
    }
}

/// The note that goes with an error, if any.
pub open spec fn error_note(error: Error) -> Option<Seq<char>> {
    match error {
        Error::MissingEndOfFile => Some("This is likely to be an issue with the compiler"@),
        Error::TooManyConstants => Some("This is likely to be an issue with the compiler"@),
        Error::TooBigJump => Some("This is likely to be an issue with the compiler"@),
        _ => None,
    }
}

/// The message and note that describe an error at a token of `source`.
pub fn get_message(source: &[char], error: &Error, token: &Token) -> (r: Diagnostic)
    requires
        quotes_token(*error) ==> token.start <= token.end <= source@.len(),
    ensures
        quotes_token(*error) ==> r.message@ == error_message(
            *error,
            source@.subrange(token.start as int, token.end as int),
        ),
        !quotes_token(*error) ==> r.message@ == error_message(*error, Seq::empty()),
        r.note matches Some(n) ==> error_note(*error) == Some(n@),
        r.note is None ==> error_note(*error) is None,
{
    match error {
        Error::UnterminatedString => {
            let mut message = String::from_str("Unterminated String, Missing closing quote ");
            let value = token.get_value(source);
            message.append(value.as_str());
            Diagnostic { message, note: None }
        },
        Error::UnknownCharacter => {
            let mut message = String::from_str("Unknown Character '");
            let value = token.get_value(source);
            message.append(value.as_str());
            message.append("'");
            Diagnostic { message, note: None }
        },
        Error::UnknownBinaryOperator => {
            let mut message = String::from_str("Unknown Binary Operator '");
            let value = token.get_value(source);
            message.append(value.as_str());
            message.append("'");
            Diagnostic { message, note: None }
        },
        Error::UnknownUnaryOperator => {
            let mut message = String::from_str("Unknown Unary Operator '");
            let value = token.get_value(source);
            message.append(value.as_str());
            message.append("'");
            Diagnostic { message, note: None }
        },
        Error::VariableAlreadyExists => {
            let mut message = String::from_str("Redefining Exisiting Variable '");
            let value = token.get_value(source);
            message.append(value.as_str());
            message.append("'");
            Diagnostic { message, note: None }
        },
        Error::MissingVariableName => Diagnostic {
            message: String::from_str("Expected Variable Name"),
            note: None,
        },
        Error::InvalidAssignmentTarget => Diagnostic {
            message: String::from_str("Invalid Assignment Target, Must be a Variable"),
            note: None,
        },
        Error::MissingBracketBeforeCondition => Diagnostic {
            message: String::from_str("Expected Bracket '(' Before Condition"),
            note: None,
        },
        Error::MissingBracketAfterCondition => Diagnostic {
            message: String::from_str("Expected Closing Bracket ')' After Condition"),
            note: None,
        },
        Error::MissingBracketBeforeParameters => Diagnostic {
            message: String::from_str("Expected Bracket '(' Before Parameters"),
            note: None,
        },
        Error::ExpectedNewLine => Diagnostic {
            message: String::from_str("Expected New Line After Expression"),
            note: None,
        },
        Error::ExpectedEndOfBlock => Diagnostic {
            message: String::from_str("Expected End of Block"),
            note: None,
        },
        Error::MissingEndOfFile => Diagnostic {
            message: String::from_str("Missing End of File"),
            note: Some(String::from_str("This is likely to be an issue with the compiler")),
        },
        Error::TooManyArguments => Diagnostic {
            message: String::from_str("Too Many Arguments (Max 255)"),
            note: None,
        },
        Error::TooManyConstants => Diagnostic {
            message: String::from_str("Too Many Constants"),
            note: Some(String::from_str("This is likely to be an issue with the compiler")),
        },
        Error::TooBigJump => Diagnostic {
            message: String::from_str("Jump Too Large"),
            note: Some(String::from_str("This is likely to be an issue with the compiler")),
        },
        Error::ExpectedBracket => Diagnostic {
            message: String::from_str("Expected Closing Bracket ')' After Expression"),
            note: None,
        },
        Error::ExpectedExpression => Diagnostic {
            message: String::from_str("Expected Expression"),
            note: None,
        },
    }
}

} // verus!

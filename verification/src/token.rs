//! The tokens of the scanner: a kind, the line, and a range of characters
//! of the source.
use crate::error::Error;
use vstd::prelude::*;
use vstd::string::{StrSliceExecFns, StringExecFns};

verus! {

pub type LineNumber = u16;

#[derive(Debug, Clone, Copy, PartialEq, Eq, Structural)]
pub enum TokenType {
    // Brackets
    LeftParen,
    RightParen,
    LeftBrace,
    RightBrace,
    // Separators
    Comma,
    Dot,
    Colon,
    RightArrow,
    FatRightArrow,
    // Operators
    Minus,
    Plus,
    Slash,
    Star,
    Bang,
    And,
    Or,
    QuestionQuestion,
    // Comparators
    BangEqual,
    Equal,
    EqualEqual,
    Greater,
    GreaterEqual,
    Less,
    LessEqual,
    // Assignment operators
    PlusEqual,
    MinusEqual,
    StarEqual,
    SlashEqual,
    // Values
    Identifier,
    String,
    Number,
    True,
    False,
    Null,
    // Keywords
    Else,
    Fun,
    If,
    Let,
    Return,
    While,
    BlockStart,
    BlockEnd,
    Blank,
    Error,
    EndOfLine,
    EndOfFile,
}

/// A token: its kind, its line, the range of characters it covers, and
/// the error it stands for, if it is an error token.
#[derive(Debug, Clone, Copy)]
pub struct Token {
    pub token_type: TokenType,
    pub line: LineNumber,
    pub start: usize,
    pub end: usize,
    pub error_value: Option<Error>,
}

/// `String::push`: the character goes at the end.
#[verifier::external_body]
pub(crate) fn push_char(text: &mut String, c: char)
    ensures
        final(text)@ == old(text)@.push(c),
{
    text.push(c);
}

impl Token {
    /// The characters the token covers.
    pub fn get_value(&self, chars: &[char]) -> (r: String)
        requires
            self.start <= self.end <= chars@.len(),
        ensures
            r@ == chars@.subrange(self.start as int, self.end as int),
    {
        let mut value = String::from_str("");
        proof {
            reveal_strlit("");
        }
        let mut i = self.start;
        while i < self.end
            invariant
                self.start <= i <= self.end <= chars@.len(),
                value@ == chars@.subrange(self.start as int, i as int),
            decreases self.end - i,
        {
            push_char(&mut value, chars[i]);
            i = i + 1;
            assert(value@ =~= chars@.subrange(self.start as int, i as int));
        }
        value
    }

    /// The characters the token covers, out of the source text.
    pub fn get_value_from_string(&self, string: &str) -> (r: String)
        requires
            self.start <= self.end <= string@.len(),
        ensures
            r@ == string@.subrange(self.start as int, self.end as int),
    {
        String::from_str(string.substring_char(self.start, self.end))
    }
}

} // verus!

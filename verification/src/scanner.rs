//! The scanner: reads a source one token at a time, and turns the
//! indentation at the start of each line into tokens that open and close
//! blocks.
//!
//! What each call of `get_token` does is `scan_step`, a function of the
//! characters and of the scanner's state.
use crate::error::Error;
use crate::token::{LineNumber, Token, TokenType};
use vstd::prelude::*;
use vstd::string::StrSliceExecFns;

verus! {

// ---------------------------------------------------------------------
// Characters
// ---------------------------------------------------------------------

pub open spec fn is_digit_char(c: char) -> bool {
    '0' <= c <= '9'
}

pub open spec fn is_alpha_char(c: char) -> bool {
    ('a' <= c <= 'z') || ('A' <= c <= 'Z') || c == '_'
}

/// The number of newlines in `c[from..to]`.
pub open spec fn newlines(c: Seq<char>, from: int, to: int) -> int
    decreases to - from,
{
    if from >= to || from < 0 || to > c.len() {
        0
    } else {
        newlines(c, from, to - 1) + if c[to - 1] == '\n' {
            1int
        } else {
            0int
        }
    }
}

/// Where the comment that starts at `i` ends: the next newline, or the end.
pub open spec fn comment_end(c: Seq<char>, i: int) -> int
    decreases c.len() - i,
{
    if i < 0 || i >= c.len() || c[i] == '\n' {
        if i < 0 {
            0
        } else {
            i
        }
    } else {
        comment_end(c, i + 1)
    }
}

/// The position and line after the white space and comments from `i`
/// (newlines too when `newlines` holds; a comment always takes its
/// newline).
pub open spec fn skip_space(c: Seq<char>, i: int, line: int, newlines: bool) -> (int, int)
    decreases c.len() - i,
{
    if i < 0 || i >= c.len() {
        (i, line)
    } else if c[i] == '\n' && newlines {
        skip_space(c, i + 1, line + 1, newlines)
    } else if c[i] == ' ' || c[i] == '\t' || c[i] == '\r' {
        skip_space(c, i + 1, line, newlines)
    } else if c[i] == '/' && i + 1 < c.len() && c[i + 1] == '/' {
        let e = comment_end(c, i);
        proof {
            lemma_comment_end(c, i);
        }
        if e < c.len() {
            skip_space(c, e + 1, line + 1, newlines)
        } else {
            (e, line)
        }
    } else {
        (i, line)
    }
}

/// Where the indentation that starts at `i` ends.
pub open spec fn indent_end(c: Seq<char>, i: int) -> int
    decreases c.len() - i,
{
    if 0 <= i < c.len() && (c[i] == ' ' || c[i] == '\t' || c[i] == '\r') {
        indent_end(c, i + 1)
    } else {
        i
    }
}

/// The width of the indentation that starts at `i`: one for a space, two
/// for a tab.
pub open spec fn indent_width(c: Seq<char>, i: int) -> int
    decreases c.len() - i,
{
    if 0 <= i < c.len() && (c[i] == ' ' || c[i] == '\t' || c[i] == '\r') {
        (if c[i] == ' ' {
            1int
        } else if c[i] == '\t' {
            2int
        } else {
            0int
        }) + indent_width(c, i + 1)
    } else {
        0
    }
}

/// Where the next line's text starts, past white space and newlines.
pub open spec fn text_start(c: Seq<char>, i: int) -> int
    decreases c.len() - i,
{
    if 0 <= i < c.len() && (c[i] == '\r' || c[i] == '\t' || c[i] == ' ' || c[i] == '\n') {
        text_start(c, i + 1)
    } else {
        i
    }
}

/// The next text is a comment.
pub open spec fn next_is_comment(c: Seq<char>, i: int) -> bool {
    let k = text_start(c, i);
    0 <= k && k + 1 < c.len() && c[k] == '/' && c[k + 1] == '/'
}

/// The next text is a character that cannot start a line, so the line
/// before goes on.
pub open spec fn continues_line(c: Seq<char>, i: int) -> bool {
    let k = text_start(c, i);
    !next_is_comment(c, i) && 0 <= k < c.len() && (c[k] == ')' || c[k] == ']' || c[k] == '.'
        || c[k] == ',' || c[k] == '*' || c[k] == '/' || c[k] == '+' || c[k] == '<' || c[k] == '>'
        || c[k] == '=' || c[k] == '&' || c[k] == '|' || c[k] == ':' || c[k] == '}')
}

/// Tokens that a line may end with.
pub open spec fn ends_line(t: TokenType) -> bool {
    t == TokenType::RightParen || t == TokenType::RightBrace || t == TokenType::Identifier || t
        == TokenType::String || t == TokenType::Number || t == TokenType::True || t
        == TokenType::False || t == TokenType::Null || t == TokenType::Return
}

pub open spec fn spec_two_character(a: char, b: char) -> Option<TokenType> {
    if a == '!' && b == '=' {
        Some(TokenType::BangEqual)
    } else if a == '=' && b == '=' {
        Some(TokenType::EqualEqual)
    } else if a == '<' && b == '=' {
        Some(TokenType::LessEqual)
    } else if a == '>' && b == '=' {
        Some(TokenType::GreaterEqual)
    } else if a == '&' && b == '&' {
        Some(TokenType::And)
    } else if a == '|' && b == '|' {
        Some(TokenType::Or)
    } else if a == '+' && b == '=' {
        Some(TokenType::PlusEqual)
    } else if a == '-' && b == '=' {
        Some(TokenType::MinusEqual)
    } else if a == '*' && b == '=' {
        Some(TokenType::StarEqual)
    } else if a == '/' && b == '=' {
        Some(TokenType::SlashEqual)
    } else if a == '?' && b == '?' {
        Some(TokenType::QuestionQuestion)
    } else if a == '-' && b == '>' {
        Some(TokenType::RightArrow)
    } else {
        None
    }
}

pub open spec fn spec_single_character(a: char) -> Option<TokenType> {
    if a == '(' {
        Some(TokenType::LeftParen)
    } else if a == ')' {
        Some(TokenType::RightParen)
    } else if a == '{' {
        Some(TokenType::LeftBrace)
    } else if a == '}' {
        Some(TokenType::RightBrace)
    } else if a == ',' {
        Some(TokenType::Comma)
    } else if a == '.' {
        Some(TokenType::Dot)
    } else if a == '-' {
        Some(TokenType::Minus)
    } else if a == '+' {
        Some(TokenType::Plus)
    } else if a == '/' {
        Some(TokenType::Slash)
    } else if a == '*' {
        Some(TokenType::Star)
    } else if a == '!' {
        Some(TokenType::Bang)
    } else if a == '=' {
        Some(TokenType::Equal)
    } else if a == '<' {
        Some(TokenType::Less)
    } else if a == '>' {
        Some(TokenType::Greater)
    } else if a == ':' {
        Some(TokenType::Colon)
    } else {
        None
    }
}

/// The end of the digits and separators from `i`.
pub open spec fn digits_end(c: Seq<char>, i: int) -> int
    decreases c.len() - i,
{
    if 0 <= i < c.len() && (is_digit_char(c[i]) || c[i] == '_') {
        digits_end(c, i + 1)
    } else {
        i
    }
}

/// The end of a number whose first character ends at `i`: digits, then a
/// point and digits when a digit follows the point.
pub open spec fn number_end(c: Seq<char>, i: int) -> int {
    let a = digits_end(c, i);
    if 0 <= a && a + 1 < c.len() && c[a] == '.' && is_digit_char(c[a + 1]) {
        digits_end(c, a + 1)
    } else {
        a
    }
}

/// The end of the letters and digits from `i`.
pub open spec fn word_end(c: Seq<char>, i: int) -> int
    decreases c.len() - i,
{
    if 0 <= i < c.len() && (is_alpha_char(c[i]) || is_digit_char(c[i])) {
        word_end(c, i + 1)
    } else {
        i
    }
}

/// The kind of a word: a keyword's own kind, else an identifier.
pub open spec fn keyword(w: Seq<char>) -> TokenType {
    if w == "and"@ {
        TokenType::And
    } else if w == "else"@ {
        TokenType::Else
    } else if w == "false"@ {
        TokenType::False
    } else if w == "fun"@ {
        TokenType::Fun
    } else if w == "if"@ {
        TokenType::If
    } else if w == "let"@ {
        TokenType::Let
    } else if w == "null"@ {
        TokenType::Null
    } else if w == "or"@ {
        TokenType::Or
    } else if w == "return"@ {
        TokenType::Return
    } else if w == "true"@ {
        TokenType::True
    } else if w == "while"@ {
        TokenType::While
    } else {
        TokenType::Identifier
    }
}

/// The rest of a string after its opening quote, from `i`: whether it is
/// closed, where the scan stops (past the closing quote, or at the newline
/// or end that leaves it open), and the line there. Only backquoted strings
/// take newlines.
pub open spec fn string_scan(c: Seq<char>, i: int, quote: char, line: int) -> (bool, int, int)
    decreases c.len() - i,
{
    if i < 0 || i >= c.len() {
        (false, i, line)
    } else if c[i] == quote {
        (true, i + 1, line)
    } else if c[i] == '\n' {
        if quote == '`' {
            string_scan(c, i + 1, quote, line + 1)
        } else {
            (false, i, line)
        }
    } else {
        string_scan(c, i + 1, quote, line)
    }
}

// ---------------------------------------------------------------------
// The scanner's step
// ---------------------------------------------------------------------

/// What the scanner knows between two tokens.
pub struct ScanState {
    pub start: int,
    pub current: int,
    pub line: int,
    pub last: TokenType,
    pub indentation: int,
    pub block_change: int,
}

pub open spec fn token_of(t: TokenType, line: int, start: int, end: int) -> Token {
    Token {
        token_type: t,
        line: line as LineNumber,
        start: start as usize,
        end: end as usize,
        error_value: None,
    }
}

pub open spec fn error_of(e: Error, line: int, start: int, end: int) -> Token {
    Token {
        token_type: TokenType::Error,
        line: line as LineNumber,
        start: start as usize,
        end: end as usize,
        error_value: Some(e),
    }
}

/// The token that starts at `s` (not at the end), where the character
/// `c[s]` was read.
pub open spec fn lexeme(c: Seq<char>, s: int, line: int) -> (Token, int, int) {
    let ch = c[s];
    let next = if s + 1 < c.len() {
        Some(c[s + 1])
    } else {
        None
    };
    if next is Some && spec_two_character(ch, next->0) is Some {
        (token_of(spec_two_character(ch, next->0)->0, line, s, s + 2), s + 2, line)
    } else if is_digit_char(ch) || (ch == '.' && next is Some && is_digit_char(next->0)) {
        let e = number_end(c, s + 1);
        (token_of(TokenType::Number, line, s, e), e, line)
    } else if is_alpha_char(ch) {
        let e = word_end(c, s + 1);
        (token_of(keyword(c.subrange(s, e)), line, s, e), e, line)
    } else if ch == '"' || ch == '\'' || ch == '`' {
        let (closed, e, l) = string_scan(c, s + 1, ch, line);
        if closed {
            (token_of(TokenType::String, l, s, e), e, l)
        } else {
            (error_of(Error::UnterminatedString, l, s, e), e, l)
        }
    } else if spec_single_character(ch) is Some {
        (token_of(spec_single_character(ch)->0, line, s, s + 1), s + 1, line)
    } else {
        (error_of(Error::UnknownCharacter, line, s, s + 1), s + 1, line)
    }
}

/// One step of the scanner: the token it finds and the state after (the
/// kind of the last token is set by `get_token`).
pub open spec fn scan_step(c: Seq<char>, st: ScanState) -> (Token, ScanState) {
    if st.block_change > 0 {
        (
            token_of(TokenType::BlockStart, st.line, st.start, st.current),
            ScanState {
                indentation: st.indentation + 1,
                block_change: st.block_change - 1,
                ..st
            },
        )
    } else if st.block_change < 0 {
        (
            token_of(TokenType::BlockEnd, st.line, st.start, st.current),
            ScanState {
                indentation: st.indentation - 1,
                block_change: st.block_change + 1,
                ..st
            },
        )
    } else {
        let at_line_start = st.last == TokenType::EndOfLine && !next_is_comment(c, st.current);
        let j = indent_end(c, st.current);
        let level = indent_width(c, st.current) / 2;
        if at_line_start && level > st.indentation {
            (
                token_of(TokenType::BlockStart, st.line, j, j),
                ScanState {
                    start: j,
                    current: j,
                    indentation: st.indentation + 1,
                    block_change: level - (st.indentation + 1),
                    ..st
                },
            )
        } else if at_line_start && level < st.indentation {
            (
                token_of(TokenType::BlockEnd, st.line, j, j),
                ScanState {
                    start: j,
                    current: j,
                    indentation: st.indentation - 1,
                    block_change: level - (st.indentation - 1),
                    ..st
                },
            )
        } else {
            let (p, line) = if at_line_start {
                (j, st.line)
            } else {
                skip_space(c, st.current, st.line, false)
            };
            let at_newline = 0 <= p < c.len() && c[p] == '\n';
            let end_of_line = at_newline && ends_line(st.last) && !continues_line(c, p);
            let (q, line2) = if !end_of_line && at_newline {
                skip_space(c, p, line, true)
            } else {
                (p, line)
            };
            if end_of_line {
                (
                    token_of(TokenType::EndOfLine, line2, q + 1, q + 1),
                    ScanState { start: q + 1, current: q + 1, line: line2 + 1, ..st },
                )
            } else if q >= c.len() {
                (
                    token_of(TokenType::EndOfFile, line2, q, q),
                    ScanState { start: q, current: q, line: line2, ..st },
                )
            } else {
                let (token, e, l) = lexeme(c, q, line2);
                (token, ScanState { start: q, current: e, line: l, ..st })
            }
        }
    }
}

/// The character at `i`, if there is one.
pub open spec fn char_at(c: Seq<char>, i: int) -> Option<char> {
    if 0 <= i < c.len() {
        Some(c[i])
    } else {
        None
    }
}

/// A source the scanner runs over without overflow: its lines can be
/// numbered by a `LineNumber`, and the indentation of every line is at most
/// 255 wide.
pub open spec fn scannable(c: Seq<char>) -> bool {
    &&& newlines(c, 0, c.len() as int) < LineNumber::MAX
    &&& forall|i: int| 0 < i <= c.len() && #[trigger] c[i - 1] == '\n' ==> indent_width(c, i) <= 255
}

fn is_digit(c: Option<char>) -> (r: bool)
    ensures
        r == (c is Some && is_digit_char(c->0)),
{
    match c {
        Some(ch) => '0' <= ch && ch <= '9',
        None => false,
    }
}

fn is_alpha(c: Option<char>) -> (r: bool)
    ensures
        r == (c is Some && is_alpha_char(c->0)),
{
    match c {
        Some(ch) => ('a' <= ch && ch <= 'z') || ('A' <= ch && ch <= 'Z') || ch == '_',
        None => false,
    }
}

/// Whether the indentation at `i` is at most 255 wide.
fn indentation_fits(chars: &[char], i: usize) -> (r: bool)
    requires
        i <= chars@.len(),
    ensures
        r == (indent_width(chars@, i as int) <= 255),
{
    let ghost c = chars@;
    let mut width: usize = 0;
    let mut j: usize = i;
    proof {
        lemma_indent_width_nonneg(c, i as int);
    }
    while j < chars.len() && (chars[j] == ' ' || chars[j] == '\t' || chars[j] == '\r')
        && width <= 255
        invariant
            i <= j <= c.len(),
            c == chars@,
            width <= 257,
            width + indent_width(c, j as int) == indent_width(c, i as int),
        decreases c.len() - j,
    {
        proof {
            lemma_indent_width_nonneg(c, j + 1);
        }
        if chars[j] == ' ' {
            width = width + 1;
        } else if chars[j] == '\t' {
            width = width + 2;
        }
        j = j + 1;
    }
    proof {
        lemma_indent_width_nonneg(c, j as int);
    }
    width <= 255
}

/// Whether the scanner can run over `chars` without overflow (see
/// `scannable`).
pub fn is_scannable(chars: &[char]) -> (r: bool)
    ensures
        r == scannable(chars@),
{
    let ghost c = chars@;
    let mut count: usize = 0;
    let mut i: usize = 0;
    while i < chars.len()
        invariant
            i <= c.len(),
            c == chars@,
            count == newlines(c, 0, i as int),
            count < LineNumber::MAX,
            forall|k: int| 0 < k <= i && #[trigger] c[k - 1] == '\n' ==> indent_width(c, k) <= 255,
        decreases c.len() - i,
    {
        if chars[i] == '\n' {
            if count + 1 >= 65535 {
                proof {
                    lemma_newlines_bound(c, i + 1);
                }
                return false;
            }
            count = count + 1;
            if !indentation_fits(chars, i + 1) {
                assert(c[(i + 1) - 1] == '\n');
                return false;
            }
        }
        i = i + 1;
    }
    true
}

fn get_two_character_token(char1: char, char2: Option<char>) -> (r: Option<TokenType>)
    ensures
        r == match char2 {
            Some(b) => spec_two_character(char1, b),
            None => None,
        },
{
    match char2 {
        Some(b) => {
            if char1 == '!' && b == '=' {
                Some(TokenType::BangEqual)
            } else if char1 == '=' && b == '=' {
                Some(TokenType::EqualEqual)
            } else if char1 == '<' && b == '=' {
                Some(TokenType::LessEqual)
            } else if char1 == '>' && b == '=' {
                Some(TokenType::GreaterEqual)
            } else if char1 == '&' && b == '&' {
                Some(TokenType::And)
            } else if char1 == '|' && b == '|' {
                Some(TokenType::Or)
            } else if char1 == '+' && b == '=' {
                Some(TokenType::PlusEqual)
            } else if char1 == '-' && b == '=' {
                Some(TokenType::MinusEqual)
            } else if char1 == '*' && b == '=' {
                Some(TokenType::StarEqual)
            } else if char1 == '/' && b == '=' {
                Some(TokenType::SlashEqual)
            } else if char1 == '?' && b == '?' {
                Some(TokenType::QuestionQuestion)
            } else if char1 == '-' && b == '>' {
                Some(TokenType::RightArrow)
            } else {
                None
            }
        },
        None => None,
    }
}

fn single_character_token(c: char) -> (r: Option<TokenType>)
    ensures
        r == spec_single_character(c),
{
    if c == '(' {
        Some(TokenType::LeftParen)
    } else if c == ')' {
        Some(TokenType::RightParen)
    } else if c == '{' {
        Some(TokenType::LeftBrace)
    } else if c == '}' {
        Some(TokenType::RightBrace)
    } else if c == ',' {
        Some(TokenType::Comma)
    } else if c == '.' {
        Some(TokenType::Dot)
    } else if c == '-' {
        Some(TokenType::Minus)
    } else if c == '+' {
        Some(TokenType::Plus)
    } else if c == '/' {
        Some(TokenType::Slash)
    } else if c == '*' {
        Some(TokenType::Star)
    } else if c == '!' {
        Some(TokenType::Bang)
    } else if c == '=' {
        Some(TokenType::Equal)
    } else if c == '<' {
        Some(TokenType::Less)
    } else if c == '>' {
        Some(TokenType::Greater)
    } else if c == ':' {
        Some(TokenType::Colon)
    } else {
        None
    }
}

fn is_valid_line_end_token(token_type: TokenType) -> (r: bool)
    ensures
        r == ends_line(token_type),
{
    token_type == TokenType::RightParen || token_type == TokenType::RightBrace || token_type
        == TokenType::Identifier || token_type == TokenType::String || token_type
        == TokenType::Number || token_type == TokenType::True || token_type == TokenType::False
        || token_type == TokenType::Null || token_type == TokenType::Return
}

pub proof fn lemma_newlines_bound(c: Seq<char>, k: int)
    requires
        0 <= k <= c.len(),
    ensures
        0 <= newlines(c, 0, k) <= newlines(c, 0, c.len() as int),
    decreases c.len() - k,
{
    if k < c.len() {
        lemma_newlines_bound(c, k + 1);
        assert(newlines(c, 0, k + 1) == newlines(c, 0, k) + if c[k] == '\n' {
            1int
        } else {
            0int
        });
    }
    lemma_newlines_nonneg(c, k);
}

pub proof fn lemma_comment_end(c: Seq<char>, i: int)
    requires
        0 <= i <= c.len(),
    ensures
        i <= comment_end(c, i) <= c.len(),
        comment_end(c, i) < c.len() ==> c[comment_end(c, i)] == '\n',
    decreases c.len() - i,
{
    if i < c.len() && c[i] != '\n' {
        lemma_comment_end(c, i + 1);
    }
}

/// No newline in `c[from..to]` leaves the count unchanged.
proof fn lemma_no_newlines(c: Seq<char>, from: int, to: int)
    requires
        0 <= from <= to <= c.len(),
        forall|k: int| from <= k < to ==> c[k] != '\n',
    ensures
        newlines(c, 0, to) == newlines(c, 0, from),
    decreases to - from,
{
    if from < to {
        lemma_no_newlines(c, from, to - 1);
    }
}

proof fn lemma_newlines_nonneg(c: Seq<char>, k: int)
    ensures
        newlines(c, 0, k) >= 0,
    decreases k,
{
    if 0 < k <= c.len() {
        lemma_newlines_nonneg(c, k - 1);
    }
}

proof fn lemma_indent_width_nonneg(c: Seq<char>, i: int)
    ensures
        indent_width(c, i) >= 0,
    decreases c.len() - i,
{
    if 0 <= i < c.len() && (c[i] == ' ' || c[i] == '\t' || c[i] == '\r') {
        lemma_indent_width_nonneg(c, i + 1);
    }
}

// ---------------------------------------------------------------------
// The scanner
// ---------------------------------------------------------------------

/// Reads the characters of a source one token at a time.
pub struct Scanner {
    pub chars: Vec<char>,
    start: usize,
    current: usize,
    line: LineNumber,
    last_token_type: TokenType,
    indentation: u8,
    block_change_remaining: i16,
}

impl Scanner {
    /// The scanner's position, line, last token kind and indentation.
    pub closed spec fn state(&self) -> ScanState {
        ScanState {
            start: self.start as int,
            current: self.current as int,
            line: self.line as int,
            last: self.last_token_type,
            indentation: self.indentation as int,
            block_change: self.block_change_remaining as int,
        }
    }

    /// What holds of the fields whatever the last token was.
    closed spec fn wf_core(&self) -> bool {
        &&& scannable(self.chars@)
        &&& self.start <= self.current <= self.chars@.len()
        &&& self.line == 1 + newlines(self.chars@, 0, self.current as int)
        &&& self.indentation <= 127
        &&& 0 <= self.indentation + self.block_change_remaining <= 127
    }

    /// The scanner's invariant: the position stays within the source, the
    /// line is one more than the newlines before the position, and after
    /// the end of a line the position is just past its newline.
    pub closed spec fn wf(&self) -> bool {
        &&& self.wf_core()
        &&& self.last_token_type == TokenType::EndOfLine ==> self.current > 0
            && self.chars@[self.current - 1] == '\n'
    }

    /// The scanner's characters.
    pub closed spec fn source(&self) -> Seq<char> {
        self.chars@
    }

    spec fn moved_from(&self, old: &Scanner) -> bool {
        &&& self.chars@ == old.chars@
        &&& self.start == old.start
        &&& self.last_token_type == old.last_token_type
        &&& self.indentation == old.indentation
        &&& self.block_change_remaining == old.block_change_remaining
    }

    fn at_end(&self) -> (r: bool)
        ensures
            r == (self.current >= self.chars@.len()),
    {
        self.current >= self.chars.len()
    }

    fn advance(&mut self) -> (ch: char)
        requires
            old(self).current < old(self).chars.len(),
        ensures
            final(self).moved_from(old(self)),
            final(self).line == old(self).line,
            final(self).current == old(self).current + 1,
            ch == old(self).chars@[old(self).current as int],
    {
        self.current = self.current + 1;
        self.chars[self.current - 1]
    }

    fn peek(&self) -> (r: Option<char>)
        ensures
            r == char_at(self.chars@, self.current as int),
    {
        if self.current < self.chars.len() {
            Some(self.chars[self.current])
        } else {
            None
        }
    }

    fn peek_equals(&self, expected: char) -> (r: bool)
        ensures
            r == (char_at(self.chars@, self.current as int) == Some(expected)),
    {
        match self.peek() {
            Some(c) => c == expected,
            None => false,
        }
    }

    fn peek_next(&self) -> (r: Option<char>)
        ensures
            r == char_at(self.chars@, self.current + 1),
    {
        if self.current < self.chars.len() && self.current + 1 < self.chars.len() {
            Some(self.chars[self.current + 1])
        } else {
            None
        }
    }

    /// Where the text of the next line starts.
    fn next_line_start(&self) -> (k: usize)
        requires
            self.current <= self.chars@.len(),
        ensures
            k == text_start(self.chars@, self.current as int),
            self.current <= k <= self.chars@.len(),
    {
        let mut i: usize = self.current;
        while i < self.chars.len() && (self.chars[i] == '\r' || self.chars[i] == '\t'
            || self.chars[i] == ' ' || self.chars[i] == '\n')
            invariant
                self.current <= i <= self.chars@.len(),
                text_start(self.chars@, i as int) == text_start(self.chars@, self.current as int),
            decreases self.chars@.len() - i,
        {
            i = i + 1;
        }
        i
    }

    fn peek_start_next_line(&self) -> (r: Option<char>)
        requires
            self.current <= self.chars@.len(),
        ensures
            r == char_at(self.chars@, text_start(self.chars@, self.current as int)),
    {
        let i = self.next_line_start();
        if i < self.chars.len() {
            Some(self.chars[i])
        } else {
            None
        }
    }

    fn is_next_line_comment(&self) -> (r: bool)
        requires
            self.current <= self.chars@.len(),
        ensures
            r == next_is_comment(self.chars@, self.current as int),
    {
        let i = self.next_line_start();
        i < self.chars.len() && i + 1 < self.chars.len() && self.chars[i] == '/' && self.chars[i
            + 1] == '/'
    }

    fn make_token(&self, token_type: TokenType) -> (t: Token)
        ensures
            t == token_of(token_type, self.line as int, self.start as int, self.current as int),
    {
        Token {
            token_type,
            line: self.line,
            error_value: None,
            start: self.start,
            end: self.current,
        }
    }

    fn error_token(&self, error: Error) -> (t: Token)
        ensures
            t == error_of(error, self.line as int, self.start as int, self.current as int),
    {
        Token {
            token_type: TokenType::Error,
            line: self.line,
            error_value: Some(error),
            start: self.start,
            end: self.current,
        }
    }

    /// Passes white space and comments, and newlines too when
    /// `skip_newlines` holds.
    fn skip_whitespace(&mut self, skip_newlines: bool)
        requires
            old(self).current <= old(self).chars@.len(),
            old(self).line == 1 + newlines(old(self).chars@, 0, old(self).current as int),
            newlines(old(self).chars@, 0, old(self).chars@.len() as int) < LineNumber::MAX,
        ensures
            final(self).moved_from(old(self)),
            final(self).current <= final(self).chars@.len(),
            final(self).line == 1 + newlines(final(self).chars@, 0, final(self).current as int),
            (final(self).current as int, final(self).line as int) == skip_space(
                old(self).chars@,
                old(self).current as int,
                old(self).line as int,
                skip_newlines,
            ),
            skip_newlines ==> char_at(final(self).chars@, final(self).current as int) != Some('\n'),
    {
        let ghost c = self.chars@;
        let ghost goal = skip_space(c, self.current as int, self.line as int, skip_newlines);
        let mut done = false;
        while !done
            invariant
                self.moved_from(old(self)),
                c == self.chars@,
                self.current <= c.len(),
                self.line == 1 + newlines(c, 0, self.current as int),
                newlines(c, 0, c.len() as int) < LineNumber::MAX,
                done ==> goal == (self.current as int, self.line as int),
                done && skip_newlines ==> char_at(c, self.current as int) != Some('\n'),
                !done ==> goal == skip_space(c, self.current as int, self.line as int, skip_newlines),
            decreases c.len() - self.current + if done {
                0int
            } else {
                1int
            },
        {
            let next = self.peek();
            if next == Some('\n') && skip_newlines {
                proof {
                    lemma_newlines_bound(c, self.current + 1);
                }
                self.advance();
                self.line = self.line + 1;
            } else if next == Some(' ') || next == Some('\t') || next == Some('\r') {
                self.advance();
            } else if next == Some('/') && self.peek_next() == Some('/') {
                let ghost from = self.current as int;
                proof {
                    lemma_comment_end(c, from);
                }
                while !self.peek_equals('\n') && !self.at_end()
                    invariant
                        self.moved_from(old(self)),
                        c == self.chars@,
                        from <= self.current <= comment_end(c, from) <= c.len(),
                        comment_end(c, self.current as int) == comment_end(c, from),
                        forall|k: int| from <= k < self.current ==> c[k] != '\n',
                        self.line == 1 + newlines(c, 0, from),
                    decreases c.len() - self.current,
                {
                    proof {
                        lemma_comment_end(c, self.current + 1);
                    }
                    self.advance();
                }
                assert(newlines(c, 0, self.current as int) == newlines(c, 0, from)) by {
                    lemma_no_newlines(c, from, self.current as int);
                }
                if self.peek_equals('\n') {
                    proof {
                        lemma_newlines_bound(c, self.current + 1);
                    }
                    self.advance();
                    self.line = self.line + 1;
                }
            } else {
                done = true;
            }
        }
    }

    /// Passes the indentation at the start of a line and gives its level:
    /// half its width, a space counting one and a tab two.
    fn get_indentation(&mut self) -> (level: u8)
        requires
            old(self).current <= old(self).chars@.len(),
            indent_width(old(self).chars@, old(self).current as int) <= 255,
        ensures
            final(self).moved_from(old(self)),
            final(self).line == old(self).line,
            final(self).current == indent_end(old(self).chars@, old(self).current as int),
            final(self).current <= final(self).chars@.len(),
            level == indent_width(old(self).chars@, old(self).current as int) / 2,
            newlines(old(self).chars@, 0, final(self).current as int) == newlines(
                old(self).chars@,
                0,
                old(self).current as int,
            ),
    {
        let ghost c = self.chars@;
        let ghost from = self.current as int;
        let mut spaces: u8 = 0;
        proof {
            lemma_indent_width_nonneg(c, from);
        }
        while self.current < self.chars.len() && (self.chars[self.current] == ' '
            || self.chars[self.current] == '\t' || self.chars[self.current] == '\r')
            invariant
                self.moved_from(old(self)),
                self.line == old(self).line,
                c == self.chars@,
                from <= self.current <= c.len(),
                spaces + indent_width(c, self.current as int) == indent_width(c, from),
                indent_width(c, from) <= 255,
                indent_end(c, self.current as int) == indent_end(c, from),
                newlines(c, 0, self.current as int) == newlines(c, 0, from),
            decreases c.len() - self.current,
        {
            proof {
                lemma_indent_width_nonneg(c, self.current + 1);
            }
            let ch = self.advance();
            if ch == ' ' {
                spaces = spaces + 1;
            } else if ch == '\t' {
                spaces = spaces + 2;
            }
        }
        spaces / 2
    }

    fn newline_token(&mut self) -> (t: Token)
        requires
            old(self).current < old(self).chars.len(),
            old(self).chars@[old(self).current as int] == '\n',
            old(self).line == 1 + newlines(old(self).chars@, 0, old(self).current as int),
            newlines(old(self).chars@, 0, old(self).chars@.len() as int) < LineNumber::MAX,
        ensures
            final(self).chars@ == old(self).chars@,
            final(self).last_token_type == old(self).last_token_type,
            final(self).indentation == old(self).indentation,
            final(self).block_change_remaining == old(self).block_change_remaining,
            final(self).current == old(self).current + 1,
            final(self).start == final(self).current,
            final(self).line == old(self).line + 1,
            final(self).line == 1 + newlines(final(self).chars@, 0, final(self).current as int),
            t == token_of(
                TokenType::EndOfLine,
                old(self).line as int,
                old(self).current + 1,
                old(self).current + 1,
            ),
    {
        proof {
            lemma_newlines_bound(self.chars@, self.current + 1);
        }
        self.advance();
        self.start = self.current;
        let token = self.make_token(TokenType::EndOfLine);
        self.line = self.line + 1;
        token
    }

    fn string_token(&mut self, quote: char) -> (t: Token)
        requires
            old(self).start < old(self).current <= old(self).chars@.len(),
            quote != '\n',
            old(self).line == 1 + newlines(old(self).chars@, 0, old(self).current as int),
            newlines(old(self).chars@, 0, old(self).chars@.len() as int) < LineNumber::MAX,
        ensures
            old(self).current <= final(self).current,
            final(self).moved_from(old(self)),
            final(self).current <= final(self).chars@.len(),
            final(self).line == 1 + newlines(final(self).chars@, 0, final(self).current as int),
            ({
                let (closed, e, l) = string_scan(
                    old(self).chars@,
                    old(self).current as int,
                    quote,
                    old(self).line as int,
                );
                &&& final(self).current == e
                &&& final(self).line == l
                &&& t == if closed {
                    token_of(TokenType::String, l, old(self).start as int, e)
                } else {
                    error_of(Error::UnterminatedString, l, old(self).start as int, e)
                }
            }),
    {
        let ghost c = self.chars@;
        let ghost goal = string_scan(c, self.current as int, quote, self.line as int);
        while self.current < self.chars.len() && self.chars[self.current] != quote
            invariant
                self.moved_from(old(self)),
                c == self.chars@,
                quote != '\n',
                old(self).current <= self.current <= c.len(),
                self.line == 1 + newlines(c, 0, self.current as int),
                newlines(c, 0, c.len() as int) < LineNumber::MAX,
                goal == string_scan(c, self.current as int, quote, self.line as int),
                goal == string_scan(old(self).chars@, old(self).current as int, quote, old(self).line as int),
            decreases c.len() - self.current,
        {
            if self.chars[self.current] == '\n' && quote == '`' {
                proof {
                    lemma_newlines_bound(c, self.current + 1);
                }
                self.line = self.line + 1;
            } else if self.chars[self.current] == '\n' {
                assert(goal == (false, self.current as int, self.line as int));
                return self.error_token(Error::UnterminatedString);
            }
            self.advance();
        }
        if self.at_end() {
            self.error_token(Error::UnterminatedString)
        } else {
            self.advance();
            assert(newlines(c, 0, self.current as int) == newlines(c, 0, self.current - 1));
            self.make_token(TokenType::String)
        }
    }

    /// Passes the digits and separators from the position.
    fn skip_digits(&mut self)
        requires
            old(self).current <= old(self).chars@.len(),
        ensures
            old(self).current <= final(self).current,
            final(self).moved_from(old(self)),
            final(self).line == old(self).line,
            final(self).current == digits_end(old(self).chars@, old(self).current as int),
            final(self).current <= final(self).chars@.len(),
            forall|k: int|
                old(self).current <= k < final(self).current ==> final(self).chars@[k] != '\n',
    {
        let ghost c = self.chars@;
        let ghost from = self.current as int;
        while is_digit(self.peek()) || self.peek_equals('_')
            invariant
                self.moved_from(old(self)),
                self.line == old(self).line,
                c == self.chars@,
                from <= self.current <= c.len(),
                digits_end(c, self.current as int) == digits_end(c, from),
                forall|k: int| from <= k < self.current ==> c[k] != '\n',
            decreases c.len() - self.current,
        {
            self.advance();
        }
    }

    fn number_token(&mut self) -> (t: Token)
        requires
            old(self).start < old(self).current <= old(self).chars@.len(),
        ensures
            old(self).current <= final(self).current,
            final(self).moved_from(old(self)),
            final(self).line == old(self).line,
            final(self).current == number_end(old(self).chars@, old(self).current as int),
            final(self).current <= final(self).chars@.len(),
            forall|k: int|
                old(self).current <= k < final(self).current ==> final(self).chars@[k] != '\n',
            t == token_of(
                TokenType::Number,
                old(self).line as int,
                old(self).start as int,
                final(self).current as int,
            ),
    {
        self.skip_digits();
        if self.peek_equals('.') && is_digit(self.peek_next()) {
            self.advance();
            self.skip_digits();
        }
        self.make_token(TokenType::Number)
    }

    fn identifier_token(&mut self) -> (t: Token)
        requires
            old(self).start < old(self).current <= old(self).chars@.len(),
        ensures
            old(self).current <= final(self).current,
            final(self).moved_from(old(self)),
            final(self).line == old(self).line,
            final(self).current == word_end(old(self).chars@, old(self).current as int),
            final(self).current <= final(self).chars@.len(),
            forall|k: int|
                old(self).current <= k < final(self).current ==> final(self).chars@[k] != '\n',
            t == token_of(
                keyword(old(self).chars@.subrange(old(self).start as int, final(self).current as int)),
                old(self).line as int,
                old(self).start as int,
                final(self).current as int,
            ),
    {
        let ghost c = self.chars@;
        let ghost from = self.current as int;
        while is_alpha(self.peek()) || is_digit(self.peek())
            invariant
                self.moved_from(old(self)),
                self.line == old(self).line,
                c == self.chars@,
                from <= self.current <= c.len(),
                word_end(c, self.current as int) == word_end(c, from),
                forall|k: int| from <= k < self.current ==> c[k] != '\n',
            decreases c.len() - self.current,
        {
            self.advance();
        }
        let token_type = self.identifier_type();
        self.make_token(token_type)
    }

    fn identifier_type(&self) -> (r: TokenType)
        requires
            self.start < self.current <= self.chars@.len(),
        ensures
            r == keyword(self.chars@.subrange(self.start as int, self.current as int)),
    {
        proof {
            reveal_strlit("and");
            reveal_strlit("else");
            reveal_strlit("false");
            reveal_strlit("fun");
            reveal_strlit("if");
            reveal_strlit("let");
            reveal_strlit("null");
            reveal_strlit("or");
            reveal_strlit("return");
            reveal_strlit("true");
            reveal_strlit("while");
        }
        let ghost w = self.chars@.subrange(self.start as int, self.current as int);
        assert(w[0] == self.chars@[self.start as int]);
        assert(w.len() >= 2 ==> w[1] == self.chars@[self.start + 1]);
        // A word differs from every keyword that starts with another letter.
        assert(w[0] != 'a' ==> w != "and"@);
        assert(w[0] != 'e' ==> w != "else"@);
        assert(w[0] != 'f' || w.len() < 2 || w[1] != 'a' ==> w != "false"@);
        assert(w[0] != 'f' || w.len() < 2 || w[1] != 'u' ==> w != "fun"@);
        assert(w[0] != 'i' ==> w != "if"@);
        assert(w[0] != 'l' ==> w != "let"@);
        assert(w[0] != 'n' ==> w != "null"@);
        assert(w[0] != 'o' ==> w != "or"@);
        assert(w[0] != 'r' ==> w != "return"@);
        assert(w[0] != 't' ==> w != "true"@);
        assert(w[0] != 'w' ==> w != "while"@);
        let first = self.chars[self.start];
        if first == 'a' {
            self.check_keyword("and", TokenType::And)
        } else if first == 'e' {
            self.check_keyword("else", TokenType::Else)
        } else if first == 'f' {
            if self.start + 1 < self.chars.len() && self.chars[self.start + 1] == 'a' {
                self.check_keyword("false", TokenType::False)
            } else if self.start + 1 < self.chars.len() && self.chars[self.start + 1] == 'u' {
                self.check_keyword("fun", TokenType::Fun)
            } else {
                TokenType::Identifier
            }
        } else if first == 'i' {
            self.check_keyword("if", TokenType::If)
        } else if first == 'l' {
            self.check_keyword("let", TokenType::Let)
        } else if first == 'n' {
            self.check_keyword("null", TokenType::Null)
        } else if first == 'o' {
            self.check_keyword("or", TokenType::Or)
        } else if first == 'r' {
            self.check_keyword("return", TokenType::Return)
        } else if first == 't' {
            self.check_keyword("true", TokenType::True)
        } else if first == 'w' {
            self.check_keyword("while", TokenType::While)
        } else {
            TokenType::Identifier
        }
    }

    fn check_keyword(&self, keyword: &str, token_type: TokenType) -> (r: TokenType)
        requires
            self.start <= self.current <= self.chars@.len(),
        ensures
            r == if self.chars@.subrange(self.start as int, self.current as int) == keyword@ {
                token_type
            } else {
                TokenType::Identifier
            },
    {
        let ghost w = self.chars@.subrange(self.start as int, self.current as int);
        let n = keyword.unicode_len();
        if self.current - self.start != n {
            return TokenType::Identifier;
        }
        let mut i: usize = 0;
        let mut same = true;
        while i < n && same
            invariant
                i <= n,
                n == keyword@.len(),
                self.start <= self.current <= self.chars@.len(),
                self.current - self.start == n,
                w == self.chars@.subrange(self.start as int, self.current as int),
                same ==> forall|k: int| 0 <= k < i ==> w[k] == keyword@[k],
                !same ==> 0 < i && w[i - 1] != keyword@[i - 1],
            decreases n - i,
        {
            if self.chars[self.start + i] != keyword.get_char(i) {
                same = false;
            }
            i = i + 1;
        }
        if same {
            assert(w =~= keyword@);
            token_type
        } else {
            TokenType::Identifier
        }
    }

    /// Reads the token that starts at the position.
    fn lexeme_token(&mut self) -> (t: Token)
        requires
            old(self).start == old(self).current,
            old(self).current < old(self).chars.len(),
            old(self).chars@[old(self).current as int] != '\n',
            old(self).line == 1 + newlines(old(self).chars@, 0, old(self).current as int),
            newlines(old(self).chars@, 0, old(self).chars@.len() as int) < LineNumber::MAX,
        ensures
            old(self).current < final(self).current,
            final(self).moved_from(old(self)),
            final(self).current <= final(self).chars@.len(),
            final(self).line == 1 + newlines(final(self).chars@, 0, final(self).current as int),
            (t, final(self).current as int, final(self).line as int) == lexeme(
                old(self).chars@,
                old(self).current as int,
                old(self).line as int,
            ),
            t.start == final(self).start,
            t.end == final(self).current,
    {
        let ghost c = self.chars@;
        let ghost s = self.current as int;
        let character = self.advance();
        let next_character = self.peek();
        if let Some(token_type) = get_two_character_token(character, next_character) {
            self.advance();
            assert(c[s + 1] != '\n');
            assert(newlines(c, 0, s + 1) == newlines(c, 0, s));
            assert(newlines(c, 0, s + 2) == newlines(c, 0, s));
            return self.make_token(token_type);
        }
        let t = if is_digit(Some(character)) || (character == '.' && is_digit(next_character)) {
            self.number_token()
        } else if is_alpha(Some(character)) {
            self.identifier_token()
        } else if character == '"' || character == '\'' || character == '`' {
            assert(newlines(c, 0, s + 1) == newlines(c, 0, s));
            return self.string_token(character);
        } else {
            match single_character_token(character) {
                Some(token_type) => self.make_token(token_type),
                None => self.error_token(Error::UnknownCharacter),
            }
        };
        assert(newlines(c, 0, self.current as int) == newlines(c, 0, s)) by {
            lemma_no_newlines(c, s, self.current as int);
        }
        t
    }

    /// Finds the next token: a change of block, the end of a line or of the
    /// source, or the token that the next characters make.
    fn find_token(&mut self) -> (t: Token)
        requires
            old(self).wf(),
        ensures
            final(self).wf_core(),
            final(self).chars@ == old(self).chars@,
            final(self).last_token_type == old(self).last_token_type,
            (t, final(self).state()) == scan_step(old(self).chars@, old(self).state()),
            t.start == final(self).start,
            t.end == final(self).current,
            t.token_type == TokenType::EndOfLine ==> final(self).current > 0
                && final(self).chars@[final(self).current - 1] == '\n',
    {
        let ghost c = self.chars@;
        proof {
            lemma_newlines_bound(c, self.current as int);
        }
        if self.block_change_remaining > 0 {
            self.indentation = self.indentation + 1;
            self.block_change_remaining = self.block_change_remaining - 1;
            return self.make_token(TokenType::BlockStart);
        } else if self.block_change_remaining < 0 {
            self.indentation = self.indentation - 1;
            self.block_change_remaining = self.block_change_remaining + 1;
            return self.make_token(TokenType::BlockEnd);
        }
        let at_line_start = self.last_token_type == TokenType::EndOfLine
            && !self.is_next_line_comment();
        if at_line_start {
            let indentation = self.get_indentation();
            if indentation > self.indentation {
                self.indentation = self.indentation + 1;
                self.block_change_remaining = indentation as i16 - self.indentation as i16;
                self.start = self.current;
                return self.make_token(TokenType::BlockStart);
            } else if indentation < self.indentation {
                self.indentation = self.indentation - 1;
                self.block_change_remaining = indentation as i16 - self.indentation as i16;
                self.start = self.current;
                return self.make_token(TokenType::BlockEnd);
            }
        } else {
            self.skip_whitespace(false);
        }
        let at_newline = self.peek_equals('\n');
        let is_end_of_line = at_newline && is_valid_line_end_token(self.last_token_type)
            && !self.is_invalid_line_start_character();
        if !is_end_of_line && at_newline {
            self.skip_whitespace(true);
        }
        self.start = self.current;
        if is_end_of_line {
            self.newline_token()
        } else if self.at_end() {
            self.make_token(TokenType::EndOfFile)
        } else {
            self.lexeme_token()
        }
    }

    fn is_invalid_line_start_character(&self) -> (r: bool)
        requires
            self.current <= self.chars@.len(),
        ensures
            r == continues_line(self.chars@, self.current as int),
    {
        if self.is_next_line_comment() {
            false
        } else {
            match self.peek_start_next_line() {
                Some(c) => c == ')' || c == ']' || c == '.' || c == ',' || c == '*' || c == '/'
                    || c == '+' || c == '<' || c == '>' || c == '=' || c == '&' || c == '|' || c
                    == ':' || c == '}',
                None => false,
            }
        }
    }

    /// Between any two calls the scanner keeps its invariant: its position
    /// lies within the source, past the start of the last token; its line
    /// is one more than the number of newlines before the position; and the
    /// indentation, with the block changes still to report, is a level in
    /// 0..=127.
    pub proof fn law_scanner_position(&self)
        requires
            self.wf(),
        ensures
            0 <= self.state().start <= self.state().current <= self.source().len(),
            self.state().line == 1 + newlines(self.source(), 0, self.state().current),
            0 <= self.state().indentation <= 127,
            0 <= self.state().indentation + self.state().block_change <= 127,
    {
    }

    /// Makes a scanner at the start of `source`.
    pub fn new(source: &str) -> (s: Self)
        requires
            scannable(source@),
        ensures
            s.wf(),
            s.source() == source@,
            s.state() == (ScanState {
                start: 0,
                current: 0,
                line: 1,
                last: TokenType::Blank,
                indentation: 0,
                block_change: 0,
            }),
    {
        let n = source.unicode_len();
        let mut chars: Vec<char> = Vec::new();
        let mut i: usize = 0;
        while i < n
            invariant
                i <= n,
                n == source@.len(),
                chars@ == source@.subrange(0, i as int),
            decreases n - i,
        {
            chars.push(source.get_char(i));
            i = i + 1;
            assert(chars@ =~= source@.subrange(0, i as int));
        }
        assert(chars@ =~= source@);
        Scanner {
            chars,
            start: 0,
            current: 0,
            line: 1,
            last_token_type: TokenType::Blank,
            indentation: 0,
            block_change_remaining: 0,
        }
    }

    /// Reads the next token. Each call is one `scan_step`; the token's kind
    /// becomes the last kind, and the token covers characters of the
    /// source.
    pub fn get_token(&mut self) -> (t: Token)
        requires
            old(self).wf(),
        ensures
            final(self).wf(),
            final(self).source() == old(self).source(),
            t == scan_step(old(self).source(), old(self).state()).0,
            final(self).state() == (ScanState {
                last: t.token_type,
                ..scan_step(old(self).source(), old(self).state()).1
            }),
            t.start <= t.end <= final(self).source().len(),
    {
        let token = self.find_token();
        self.last_token_type = token.token_type;
        token
    }
}

} // verus!

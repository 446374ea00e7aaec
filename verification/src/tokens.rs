//! A byte-level tokeniser that keeps every byte of the source, whitespace and
//! comments included, as part of exactly one token.
use crate::text::{bytes_of, byte_is_blank, byte_is_digit, byte_is_letter, is_blank, is_digit, is_letter, on_boundary, slice_str};
use vstd::prelude::*;

verus! {

pub type LineNumber = u16;

pub type ColumnNumber = usize;

pub type CharacterPosition = usize;

#[derive(Debug, PartialEq, Eq, Copy, Clone, Structural)]
pub enum TokenType {
    // Brackets
    LeftParen,
    RightParen,
    LeftBrace,
    RightBrace,
    // Separators
    Comma,
    Dot,
    Colon,
    RightArrow,
    FatRightArrow,
    // Operators
    Minus,
    Plus,
    Slash,
    Star,
    Bang,
    And,
    Or,
    QuestionQuestion,
    // Comparators
    BangEqual,
    Equal,
    EqualEqual,
    Greater,
    GreaterEqual,
    Less,
    LessEqual,
    // Assignment Operators
    PlusEqual,
    MinusEqual,
    StarEqual,
    SlashEqual,
    // Values
    Identifier,
    String,
    Number,
    True,
    False,
    Null,
    // Keywords
    Else,
    Fun,
    If,
    Let,
    Return,
    While,
    // Blank
    Comment,
    Whitespace,
    EndOfLine,
    EndOfFile,
    Unknown,
}

/// A token: its kind, the text it covers and where that text stands.
#[derive(Debug)]
pub struct Token<'source> {
    pub ttype: TokenType,
    pub value: &'source str,
    pub start: CharacterPosition,
    pub end: CharacterPosition,
    pub line: LineNumber,
    pub column: ColumnNumber,
}

/// What a token is, without the text it covers.
pub struct TokenInfo {
    pub ttype: TokenType,
    pub start: int,
    pub end: int,
    pub line: int,
    pub column: int,
}

impl<'source> Token<'source> {
    pub open spec fn info(&self) -> TokenInfo {
        TokenInfo {
            ttype: self.ttype,
            start: self.start as int,
            end: self.end as int,
            line: self.line as int,
            column: self.column as int,
        }
    }
}

/// The two-byte operators, recognised before any other token.
pub open spec fn spec_two_character(c: u8, d: u8) -> Option<TokenType> {
    if c == 33 && d == 61 {
        Some(TokenType::BangEqual)  // !=
    } else if c == 61 && d == 61 {
        Some(TokenType::EqualEqual)  // ==
    } else if c == 60 && d == 61 {
        Some(TokenType::LessEqual)  // <=
    } else if c == 62 && d == 61 {
        Some(TokenType::GreaterEqual)  // >=
    } else if c == 43 && d == 61 {
        Some(TokenType::PlusEqual)  // +=
    } else if c == 45 && d == 61 {
        Some(TokenType::MinusEqual)  // -=
    } else if c == 42 && d == 61 {
        Some(TokenType::StarEqual)  // *=
    } else if c == 47 && d == 61 {
        Some(TokenType::SlashEqual)  // /=
    } else if c == 45 && d == 62 {
        Some(TokenType::RightArrow)  // ->
    } else if c == 61 && d == 62 {
        Some(TokenType::FatRightArrow)  // =>
    } else if c == 38 && d == 38 {
        Some(TokenType::And)  // &&
    } else if c == 124 && d == 124 {
        Some(TokenType::Or)  // ||
    } else if c == 63 && d == 63 {
        Some(TokenType::QuestionQuestion)  // ??
    } else {
        None
    }
}

/// The token made of the single byte `c`.
pub open spec fn spec_single_character(c: u8) -> TokenType {
    if c == 10 {
        TokenType::EndOfLine
    } else if c == 40 {
        TokenType::LeftParen
    } else if c == 41 {
        TokenType::RightParen
    } else if c == 123 {
        TokenType::LeftBrace
    } else if c == 125 {
        TokenType::RightBrace
    } else if c == 44 {
        TokenType::Comma
    } else if c == 46 {
        TokenType::Dot
    } else if c == 43 {
        TokenType::Plus
    } else if c == 45 {
        TokenType::Minus
    } else if c == 47 {
        TokenType::Slash
    } else if c == 42 {
        TokenType::Star
    } else if c == 33 {
        TokenType::Bang
    } else if c == 61 {
        TokenType::Equal
    } else if c == 60 {
        TokenType::Less
    } else if c == 62 {
        TokenType::Greater
    } else if c == 58 {
        TokenType::Colon
    } else {
        TokenType::Unknown
    }
}

/// The first position at or after `p` that does not hold a blank.
pub open spec fn blank_end(b: Seq<u8>, p: int) -> int
    decreases b.len() - p,
{
    if 0 <= p < b.len() && is_blank(b[p]) {
        blank_end(b, p + 1)
    } else {
        p
    }
}

/// The first position at or after `p` that holds a newline, or the end.
pub open spec fn line_end(b: Seq<u8>, p: int) -> int
    decreases b.len() - p,
{
    if 0 <= p < b.len() && b[p] != 10 {
        line_end(b, p + 1)
    } else {
        p
    }
}

/// The first position at or after `p` that holds `quote`, or the end.
pub open spec fn quote_end(b: Seq<u8>, p: int, quote: u8) -> int
    decreases b.len() - p,
{
    if 0 <= p < b.len() && b[p] != quote {
        quote_end(b, p + 1, quote)
    } else {
        p
    }
}

pub open spec fn is_digit_or_underscore(c: u8) -> bool {
    is_digit(c) || c == 95
}

/// The first position at or after `p` that holds neither a digit nor `_`.
pub open spec fn digits_end(b: Seq<u8>, p: int) -> int
    decreases b.len() - p,
{
    if 0 <= p < b.len() && is_digit_or_underscore(b[p]) {
        digits_end(b, p + 1)
    } else {
        p
    }
}

pub open spec fn is_word_byte(c: u8) -> bool {
    is_letter(c) || c == 95
}

/// The first position at or after `p` that holds neither a letter nor `_`.
pub open spec fn word_end(b: Seq<u8>, p: int) -> int
    decreases b.len() - p,
{
    if 0 <= p < b.len() && is_word_byte(b[p]) {
        word_end(b, p + 1)
    } else {
        p
    }
}

/// Where a number that starts at `p` ends: digits and `_`, then a `.`
/// followed by a digit, then digits and `_` again.
pub open spec fn number_end(b: Seq<u8>, p: int) -> int {
    let q = digits_end(b, p + 1);
    if q < b.len() && b[q] == 46 && q + 1 < b.len() && is_digit(b[q + 1]) {
        digits_end(b, q + 1)
    } else {
        digits_end(b, q)
    }
}

/// The scan of a number reads the byte after a trailing `.`: it goes out of
/// bounds where that `.` is the last byte of the source.
pub open spec fn number_overruns(b: Seq<u8>, p: int) -> bool {
    let q = digits_end(b, p + 1);
    q < b.len() && b[q] == 46 && q + 1 == b.len()
}

pub open spec fn keyword_type(w: Seq<u8>) -> TokenType {
    if w == seq![97u8, 110, 100] {
        TokenType::And
    } else if w == seq![101u8, 108, 115, 101] {
        TokenType::Else
    } else if w == seq![102u8, 97, 108, 115, 101] {
        TokenType::False
    } else if w == seq![102u8, 117, 110] {
        TokenType::Fun
    } else if w == seq![105u8, 102] {
        TokenType::If
    } else if w == seq![108u8, 101, 116] {
        TokenType::Let
    } else if w == seq![110u8, 117, 108, 108] {
        TokenType::Null
    } else if w == seq![111u8, 114] {
        TokenType::Or
    } else if w == seq![114u8, 101, 116, 117, 114, 110] {
        TokenType::Return
    } else if w == seq![116u8, 114, 117, 101] {
        TokenType::True
    } else if w == seq![119u8, 104, 105, 108, 101] {
        TokenType::While
    } else {
        TokenType::Identifier
    }
}

/// The kind and the length of the token that starts at `p`.
pub open spec fn token_at(b: Seq<u8>, p: int) -> (TokenType, int) {
    let c = b[p];
    if p + 1 < b.len() && spec_two_character(c, b[p + 1]) is Some {
        (spec_two_character(c, b[p + 1])->0, 2)
    } else if c == 34 || c == 39 || c == 96 {
        let q = quote_end(b, p + 1, c);
        (TokenType::String, if q < b.len() { q + 1 - p } else { q - p })
    } else if is_digit(c) {
        (TokenType::Number, number_end(b, p) - p)
    } else if is_blank(c) {
        (TokenType::Whitespace, blank_end(b, p) - p)
    } else if is_word_byte(c) {
        let q = word_end(b, p + 1);
        (keyword_type(b.subrange(p, q)), q - p)
    } else if c == 47 && p + 1 < b.len() && b[p + 1] == 47 {
        (TokenType::Comment, line_end(b, p + 2) - p)
    } else if c == 46 && p + 1 < b.len() && is_digit(b[p + 1]) {
        (TokenType::Number, number_end(b, p) - p)
    } else {
        (spec_single_character(c), 1)
    }
}

/// Reading the token at `p` would go out of bounds: a number whose `.` is
/// the last byte of the source, or a word `f` at the very end.
pub open spec fn token_overruns(b: Seq<u8>, p: int) -> bool {
    let c = b[p];
    if p + 1 < b.len() && spec_two_character(c, b[p + 1]) is Some {
        false
    } else if c == 34 || c == 39 || c == 96 {
        false
    } else if is_digit(c) {
        number_overruns(b, p)
    } else if is_blank(c) {
        false
    } else if is_word_byte(c) {
        c == 102 && p + 1 == b.len()
    } else if c == 47 && p + 1 < b.len() && b[p + 1] == 47 {
        false
    } else if c == 46 && p + 1 < b.len() && is_digit(b[p + 1]) {
        number_overruns(b, p)
    } else {
        false
    }
}

/// The tokens of `b` from position `p`, where the token at `p` is on
/// `line`, at `column`.
pub open spec fn spec_tokens(b: Seq<u8>, p: int, line: int, column: int) -> Seq<TokenInfo>
    decreases b.len() - p,
{
    if p < 0 || p >= b.len() {
        seq![]
    } else {
        let (t, n) = token_at(b, p);
        let token = TokenInfo { ttype: t, start: p, end: p + n, line, column };
        if n <= 0 || p + n > b.len() {
            seq![token]
        } else if t == TokenType::EndOfLine {
            seq![token] + spec_tokens(b, p + n, line + 1, 0)
        } else {
            seq![token] + spec_tokens(b, p + n, line, column + n)
        }
    }
}

/// The source can be tokenised from `p` on: no token scan goes out of
/// bounds, every token ends where a character ends, and the line count
/// stays within a `LineNumber`.
pub open spec fn tokenizable(b: Seq<u8>, p: int, line: int) -> bool
    decreases b.len() - p,
{
    if p < 0 || p >= b.len() {
        true
    } else {
        let (t, n) = token_at(b, p);
        &&& !token_overruns(b, p)
        &&& n > 0
        &&& on_boundary(b, p + n)
        &&& (t == TokenType::EndOfLine ==> line + 1 <= LineNumber::MAX)
        &&& tokenizable(b, p + n, if t == TokenType::EndOfLine { line + 1 } else { line })
    }
}

/// The tokens of a whole source.
pub open spec fn source_tokens(b: Seq<u8>) -> Seq<TokenInfo> {
    spec_tokens(b, 0, 1, 0)
}

pub proof fn lemma_token_length_positive(b: Seq<u8>, p: int)
    requires
        0 <= p < b.len(),
    ensures
        token_at(b, p).1 > 0,
        p + token_at(b, p).1 <= b.len(),
{
    let c = b[p];
    lemma_scan_bounds(b, p);
}

proof fn lemma_scan_bounds(b: Seq<u8>, p: int)
    requires
        0 <= p < b.len(),
    ensures
        p < blank_end(b, p) <= b.len() || !is_blank(b[p]),
        p + 1 <= quote_end(b, p + 1, b[p]) <= b.len(),
        p + 1 <= digits_end(b, p + 1) <= b.len(),
        p + 1 <= word_end(b, p + 1) <= b.len(),
        p + 1 < b.len() ==> p + 2 <= line_end(b, p + 2) <= b.len(),
        p + 1 <= number_end(b, p) <= b.len(),
{
    lemma_blank_end(b, p);
    lemma_quote_end(b, p + 1, b[p]);
    lemma_digits_end(b, p + 1);
    lemma_word_end(b, p + 1);
    if p + 1 < b.len() {
        lemma_line_end(b, p + 2);
    }
    let q = digits_end(b, p + 1);
    lemma_digits_end(b, q);
    if q + 1 <= b.len() {
        lemma_digits_end(b, q + 1);
    }
}

pub proof fn lemma_blank_end(b: Seq<u8>, p: int)
    requires
        0 <= p <= b.len(),
    ensures
        p <= blank_end(b, p) <= b.len(),
        forall|i: int| p <= i < blank_end(b, p) ==> is_blank(#[trigger] b[i]),
        blank_end(b, p) < b.len() ==> !is_blank(b[blank_end(b, p)]),
    decreases b.len() - p,
{
    if p < b.len() && is_blank(b[p]) {
        lemma_blank_end(b, p + 1);
    }
}

pub proof fn lemma_line_end(b: Seq<u8>, p: int)
    requires
        0 <= p <= b.len(),
    ensures
        p <= line_end(b, p) <= b.len(),
        line_end(b, p) < b.len() ==> b[line_end(b, p)] == 10,
    decreases b.len() - p,
{
    if p < b.len() && b[p] != 10 {
        lemma_line_end(b, p + 1);
    }
}

pub proof fn lemma_quote_end(b: Seq<u8>, p: int, quote: u8)
    requires
        0 <= p <= b.len(),
    ensures
        p <= quote_end(b, p, quote) <= b.len(),
        quote_end(b, p, quote) < b.len() ==> b[quote_end(b, p, quote)] == quote,
    decreases b.len() - p,
{
    if p < b.len() && b[p] != quote {
        lemma_quote_end(b, p + 1, quote);
    }
}

pub proof fn lemma_digits_end(b: Seq<u8>, p: int)
    requires
        0 <= p <= b.len(),
    ensures
        p <= digits_end(b, p) <= b.len(),
        digits_end(b, p) < b.len() ==> !is_digit_or_underscore(b[digits_end(b, p)]),
    decreases b.len() - p,
{
    if p < b.len() && is_digit_or_underscore(b[p]) {
        lemma_digits_end(b, p + 1);
    }
}

pub proof fn lemma_word_end(b: Seq<u8>, p: int)
    requires
        0 <= p <= b.len(),
    ensures
        p <= word_end(b, p) <= b.len(),
        forall|i: int| p <= i < word_end(b, p) ==> is_word_byte(#[trigger] b[i]),
        word_end(b, p) < b.len() ==> !is_word_byte(b[word_end(b, p)]),
    decreases b.len() - p,
{
    if p < b.len() && is_word_byte(b[p]) {
        lemma_word_end(b, p + 1);
    }
}

/// `keyword_type` looked up by the first byte, and the second for `f`.
proof fn lemma_keyword_dispatch(w: Seq<u8>)
    requires
        w.len() >= 1,
    ensures
        keyword_type(w) == if w[0] == 97 {
            if w == seq![97u8, 110, 100] { TokenType::And } else { TokenType::Identifier }
        } else if w[0] == 101 {
            if w == seq![101u8, 108, 115, 101] { TokenType::Else } else { TokenType::Identifier }
        } else if w[0] == 102 && w.len() >= 2 && w[1] == 97 {
            if w == seq![102u8, 97, 108, 115, 101] { TokenType::False } else { TokenType::Identifier }
        } else if w[0] == 102 && w.len() >= 2 && w[1] == 117 {
            if w == seq![102u8, 117, 110] { TokenType::Fun } else { TokenType::Identifier }
        } else if w[0] == 105 {
            if w == seq![105u8, 102] { TokenType::If } else { TokenType::Identifier }
        } else if w[0] == 108 {
            if w == seq![108u8, 101, 116] { TokenType::Let } else { TokenType::Identifier }
        } else if w[0] == 110 {
            if w == seq![110u8, 117, 108, 108] { TokenType::Null } else { TokenType::Identifier }
        } else if w[0] == 111 {
            if w == seq![111u8, 114] { TokenType::Or } else { TokenType::Identifier }
        } else if w[0] == 114 {
            if w == seq![114u8, 101, 116, 117, 114, 110] { TokenType::Return } else { TokenType::Identifier }
        } else if w[0] == 116 {
            if w == seq![116u8, 114, 117, 101] { TokenType::True } else { TokenType::Identifier }
        } else if w[0] == 119 {
            if w == seq![119u8, 104, 105, 108, 101] { TokenType::While } else { TokenType::Identifier }
        } else {
            TokenType::Identifier
        },
{
    assert(seq![97u8, 110, 100][0] == 97);
    assert(seq![101u8, 108, 115, 101][0] == 101);
    assert(seq![102u8, 97, 108, 115, 101][0] == 102 && seq![102u8, 97, 108, 115, 101][1] == 97);
    assert(seq![102u8, 117, 110][0] == 102 && seq![102u8, 117, 110][1] == 117);
    assert(seq![105u8, 102][0] == 105);
    assert(seq![108u8, 101, 116][0] == 108);
    assert(seq![110u8, 117, 108, 108][0] == 110);
    assert(seq![111u8, 114][0] == 111);
    assert(seq![114u8, 101, 116, 117, 114, 110][0] == 114);
    assert(seq![116u8, 114, 117, 101][0] == 116);
    assert(seq![119u8, 104, 105, 108, 101][0] == 119);
}

struct Tokeniser<'source> {
    text: &'source str,
    source: &'source [u8],
    line: LineNumber,
    column: ColumnNumber,
    position: CharacterPosition,
}

impl<'source> Tokeniser<'source> {
    spec fn wf(&self) -> bool {
        &&& self.source@ == bytes_of(self.text)
        &&& self.source@.len() <= usize::MAX
        &&& self.position <= self.source@.len()
        &&& on_boundary(self.source@, self.position as int)
    }

    fn new(source: &'source str) -> (r: Tokeniser<'source>)
        ensures
            r.wf(),
            r.source@ == bytes_of(source),
            r.text == source,
            r.position == 0,
            r.line == 1,
            r.column == 0,
    {
        let bytes = source.as_bytes();
        let _ = bytes.len();
        proof {
            vstd::utf8::encode_utf8_valid_utf8(source@);
            if bytes@.len() > 0 {
                vstd::utf8::is_char_boundary_start_end_of_seq(bytes@);
                vstd::utf8::is_char_boundary_iff_not_is_continuation_byte(bytes@, 0);
            }
        }
        Tokeniser { text: source, source: bytes, line: 1, column: 0, position: 0 }
    }

    fn tokens_left(&self) -> (r: bool)
        ensures
            r == (self.position < self.source@.len()),
    {
        self.position < self.source.len()
    }

    fn at_end(&self, position: CharacterPosition) -> (r: bool)
        ensures
            r == (position >= self.source@.len()),
    {
        position >= self.source.len()
    }

    fn next_token(&mut self) -> (token: Token<'source>)
        requires
            old(self).wf(),
            old(self).position < old(self).source@.len(),
            tokenizable(old(self).source@, old(self).position as int, old(self).line as int),
            old(self).column + old(self).source@.len() - old(self).position <= usize::MAX,
        ensures
            final(self).wf(),
            final(self).text == old(self).text,
            final(self).source@ == old(self).source@,
            ({
                let b = old(self).source@;
                let p = old(self).position as int;
                let (t, n) = token_at(b, p);
                &&& token.info() == (TokenInfo {
                    ttype: t,
                    start: p,
                    end: p + n,
                    line: old(self).line as int,
                    column: old(self).column as int,
                })
                &&& bytes_of(token.value) == b.subrange(p, p + n)
                &&& final(self).position == p + n
                &&& final(self).line == if t == TokenType::EndOfLine {
                    old(self).line + 1
                } else {
                    old(self).line as int
                }
                &&& final(self).column == if t == TokenType::EndOfLine {
                    0
                } else {
                    old(self).column + n
                }
                &&& tokenizable(b, p + n, final(self).line as int)
            }),
    {
        let ghost b = self.source@;
        proof {
            lemma_token_length_positive(b, self.position as int);
        }
        let (token_type, length) = self.next_token_type();
        let value = slice_str(self.text, self.position, self.position + length);
        let token = Token {
            ttype: token_type,
            start: self.position,
            end: self.position + length,
            line: self.line,
            column: self.column,
            value,
        };
        self.position = self.position + length;
        if token.ttype == TokenType::EndOfLine {
            self.line = self.line + 1;
            self.column = 0;
        } else {
            self.column = self.column + length;
        }
        token
    }

    fn next_token_type(&self) -> (r: (TokenType, CharacterPosition))
        requires
            self.wf(),
            self.position < self.source@.len(),
            !token_overruns(self.source@, self.position as int),
        ensures
            r.0 == token_at(self.source@, self.position as int).0,
            r.1 == token_at(self.source@, self.position as int).1,
    {
        let ghost b = self.source@;
        let ghost p = self.position as int;
        proof {
            lemma_scan_bounds(b, p);
        }
        let character = self.source[self.position];
        if let Some(token_type) = self.two_character_token() {
            return (token_type, 2);
        }
        let has_next = self.position + 1 < self.source.len();
        if character == 34 || character == 39 || character == 96 {
            self.string(character)
        } else if byte_is_digit(character) {
            self.number()
        } else if byte_is_blank(character) {
            self.whitespace()
        } else if byte_is_letter(character) || character == 95 {
            self.identifier()
        } else if character == 47 && has_next && self.source[self.position + 1] == 47 {
            self.comment()
        } else if character == 46 && has_next && byte_is_digit(self.source[self.position + 1]) {
            self.number()
        } else {
            (single_character_token(character), 1)
        }
    }

    /// Where the digits and separators from `p` end.
    fn digits_from(&self, p: usize) -> (r: usize)
        requires
            self.wf(),
            p <= self.source@.len(),
        ensures
            r == digits_end(self.source@, p as int),
    {
        let ghost b = self.source@;
        let mut position = p;
        while !self.at_end(position) && (byte_is_digit(self.source[position])
            || self.source[position] == 95)
            invariant
                self.wf(),
                p <= position <= self.source@.len(),
                b == self.source@,
                digits_end(b, position as int) == digits_end(b, p as int),
            decreases self.source@.len() - position,
        {
            assert(digits_end(b, position as int) == digits_end(b, position + 1));
            position = position + 1;
        }
        position
    }

    /// Whether reading the token at the position goes past the end of the
    /// source.
    fn overruns(&self) -> (r: bool)
        requires
            self.wf(),
            self.position < self.source@.len(),
        ensures
            r == token_overruns(self.source@, self.position as int),
    {
        let p = self.position;
        let length = self.source.len();
        let c = self.source[p];
        let number = if p + 1 <= length {
            let q = self.digits_from(p + 1);
            q < length && self.source[q] == 46 && q + 1 == length
        } else {
            false
        };
        match self.two_character_token() {
            Some(_) => false,
            None => {
                if c == 34 || c == 39 || c == 96 {
                    false
                } else if byte_is_digit(c) {
                    number
                } else if byte_is_blank(c) {
                    false
                } else if byte_is_letter(c) || c == 95 {
                    c == 102 && p + 1 == length
                } else if c == 47 && p + 1 < length && self.source[p + 1] == 47 {
                    false
                } else if c == 46 && p + 1 < length && byte_is_digit(self.source[p + 1]) {
                    number
                } else {
                    false
                }
            },
        }
    }

    fn two_character_token(&self) -> (r: Option<TokenType>)
        requires
            self.wf(),
            self.position < self.source@.len(),
        ensures
            r == (if self.position + 1 < self.source@.len() {
                spec_two_character(
                    self.source@[self.position as int],
                    self.source@[self.position + 1],
                )
            } else {
                None
            }),
    {
        if self.position + 1 >= self.source.len() {
            return None;
        }
        let c = self.source[self.position];
        let d = self.source[self.position + 1];
        if c == 33 && d == 61 {
            Some(TokenType::BangEqual)
        } else if c == 61 && d == 61 {
            Some(TokenType::EqualEqual)
        } else if c == 60 && d == 61 {
            Some(TokenType::LessEqual)
        } else if c == 62 && d == 61 {
            Some(TokenType::GreaterEqual)
        } else if c == 43 && d == 61 {
            Some(TokenType::PlusEqual)
        } else if c == 45 && d == 61 {
            Some(TokenType::MinusEqual)
        } else if c == 42 && d == 61 {
            Some(TokenType::StarEqual)
        } else if c == 47 && d == 61 {
            Some(TokenType::SlashEqual)
        } else if c == 45 && d == 62 {
            Some(TokenType::RightArrow)
        } else if c == 61 && d == 62 {
            Some(TokenType::FatRightArrow)
        } else if c == 38 && d == 38 {
            Some(TokenType::And)
        } else if c == 124 && d == 124 {
            Some(TokenType::Or)
        } else if c == 63 && d == 63 {
            Some(TokenType::QuestionQuestion)
        } else {
            None
        }
    }

    fn whitespace(&self) -> (r: (TokenType, CharacterPosition))
        requires
            self.wf(),
        ensures
            r.0 == TokenType::Whitespace,
            r.1 == blank_end(self.source@, self.position as int) - self.position,
    {
        let mut position = self.position;
        while !self.at_end(position) && byte_is_blank(self.source[position])
            invariant
                self.wf(),
                self.position <= position <= self.source@.len(),
                blank_end(self.source@, position as int) == blank_end(
                    self.source@,
                    self.position as int,
                ),
            decreases self.source@.len() - position,
        {
            position = position + 1;
        }
        (TokenType::Whitespace, position - self.position)
    }

    fn comment(&self) -> (r: (TokenType, CharacterPosition))
        requires
            self.wf(),
            self.position + 2 <= self.source@.len(),
        ensures
            r.0 == TokenType::Comment,
            r.1 == line_end(self.source@, self.position + 2) - self.position,
    {
        let mut position = self.position + 2;
        while !self.at_end(position) && self.source[position] != 10
            invariant
                self.wf(),
                self.position + 2 <= position <= self.source@.len(),
                line_end(self.source@, position as int) == line_end(
                    self.source@,
                    self.position + 2,
                ),
            decreases self.source@.len() - position,
        {
            position = position + 1;
        }
        (TokenType::Comment, position - self.position)
    }

    fn string(&self, quote: u8) -> (r: (TokenType, CharacterPosition))
        requires
            self.wf(),
            self.position < self.source@.len(),
        ensures
            r.0 == TokenType::String,
            ({
                let q = quote_end(self.source@, self.position + 1, quote);
                r.1 == if q < self.source@.len() {
                    q + 1 - self.position
                } else {
                    q - self.position
                }
            }),
    {
        let mut position = self.position + 1;
        while !self.at_end(position) && self.source[position] != quote
            invariant
                self.wf(),
                self.position + 1 <= position <= self.source@.len(),
                quote_end(self.source@, position as int, quote) == quote_end(
                    self.source@,
                    self.position + 1,
                    quote,
                ),
            decreases self.source@.len() - position,
        {
            position = position + 1;
        }
        if self.at_end(position) {
            (TokenType::String, position - self.position)
        } else {
            (TokenType::String, (position - self.position) + 1)
        }
    }

    fn number(&self) -> (r: (TokenType, CharacterPosition))
        requires
            self.wf(),
            self.position < self.source@.len(),
            !number_overruns(self.source@, self.position as int),
        ensures
            r.0 == TokenType::Number,
            r.1 == number_end(self.source@, self.position as int) - self.position,
    {
        let ghost b = self.source@;
        let mut position = self.position + 1;
        while !self.at_end(position) && (byte_is_digit(self.source[position])
            || self.source[position] == 95)
            invariant
                self.wf(),
                self.position + 1 <= position <= self.source@.len(),
                b == self.source@,
                digits_end(b, position as int) == digits_end(b, self.position + 1),
            decreases self.source@.len() - position,
        {
            assert(digits_end(b, position as int) == digits_end(b, position + 1));
            position = position + 1;
        }
        proof {
            lemma_digits_end(b, position as int);
        }
        if !self.at_end(position) && self.source[position] == 46 && byte_is_digit(
            self.source[position + 1],
        ) {
            position = position + 1;
        }
        let ghost from = position;
        while !self.at_end(position) && (byte_is_digit(self.source[position])
            || self.source[position] == 95)
            invariant
                self.wf(),
                from <= position <= self.source@.len(),
                b == self.source@,
                digits_end(b, position as int) == digits_end(b, from as int),
            decreases self.source@.len() - position,
        {
            assert(digits_end(b, position as int) == digits_end(b, position + 1));
            position = position + 1;
        }
        (TokenType::Number, position - self.position)
    }

    fn identifier(&self) -> (r: (TokenType, CharacterPosition))
        requires
            self.wf(),
            self.position < self.source@.len(),
            !(self.source@[self.position as int] == 102 && self.position + 1
                == self.source@.len()),
        ensures
            ({
                let q = word_end(self.source@, self.position + 1);
                r == (keyword_type(self.source@.subrange(self.position as int, q)), (q
                    - self.position) as usize)
            }),
    {
        let ghost b = self.source@;
        let mut position = self.position;
        while !self.at_end(position + 1) && (byte_is_letter(self.source[position + 1])
            || self.source[position + 1] == 95)
            invariant
                self.wf(),
                self.position <= position < self.source@.len(),
                b == self.source@,
                word_end(b, position + 1) == word_end(b, self.position + 1),
            decreases self.source@.len() - position,
        {
            assert(word_end(b, position + 1) == word_end(b, position + 2));
            position = position + 1;
        }
        proof {
            lemma_word_end(b, self.position + 1);
        }
        let length = (position - self.position) + 1;
        (self.identifier_type(length), length)
    }

    fn identifier_type(&self, length: CharacterPosition) -> (r: TokenType)
        requires
            self.wf(),
            1 <= length,
            self.position + length <= self.source@.len(),
            !(self.source@[self.position as int] == 102 && self.position + 1
                == self.source@.len()),
        ensures
            r == keyword_type(
                self.source@.subrange(self.position as int, self.position + length),
            ),
    {
        let ghost w = self.source@.subrange(self.position as int, self.position + length);
        let first = self.source[self.position];
        assert(w[0] == first);
        proof {
            lemma_keyword_dispatch(w);
        }
        if length >= 2 {
            assert(w[1] == self.source@[self.position + 1]);
        }
        let r = if first == 97 {
            let k = [97u8, 110, 100];
            let ks = k.as_slice();
            assert(ks@ =~= seq![97u8, 110, 100]);
            self.check_keyword(length, ks, TokenType::And)
        } else if first == 101 {
            let k = [101u8, 108, 115, 101];
            let ks = k.as_slice();
            assert(ks@ =~= seq![101u8, 108, 115, 101]);
            self.check_keyword(length, ks, TokenType::Else)
        } else if first == 102 {
            let second = self.source[self.position + 1];
            if second == 97 {
                let k = [102u8, 97, 108, 115, 101];
                let ks = k.as_slice();
                assert(ks@ =~= seq![102u8, 97, 108, 115, 101]);
                self.check_keyword(length, ks, TokenType::False)
            } else if second == 117 {
                let k = [102u8, 117, 110];
                let ks = k.as_slice();
                assert(ks@ =~= seq![102u8, 117, 110]);
                self.check_keyword(length, ks, TokenType::Fun)
            } else {
                TokenType::Identifier
            }
        } else if first == 105 {
            let k = [105u8, 102];
            let ks = k.as_slice();
            assert(ks@ =~= seq![105u8, 102]);
            self.check_keyword(length, ks, TokenType::If)
        } else if first == 108 {
            let k = [108u8, 101, 116];
            let ks = k.as_slice();
            assert(ks@ =~= seq![108u8, 101, 116]);
            self.check_keyword(length, ks, TokenType::Let)
        } else if first == 110 {
            let k = [110u8, 117, 108, 108];
            let ks = k.as_slice();
            assert(ks@ =~= seq![110u8, 117, 108, 108]);
            self.check_keyword(length, ks, TokenType::Null)
        } else if first == 111 {
            let k = [111u8, 114];
            let ks = k.as_slice();
            assert(ks@ =~= seq![111u8, 114]);
            self.check_keyword(length, ks, TokenType::Or)
        } else if first == 114 {
            let k = [114u8, 101, 116, 117, 114, 110];
            let ks = k.as_slice();
            assert(ks@ =~= seq![114u8, 101, 116, 117, 114, 110]);
            self.check_keyword(length, ks, TokenType::Return)
        } else if first == 116 {
            let k = [116u8, 114, 117, 101];
            let ks = k.as_slice();
            assert(ks@ =~= seq![116u8, 114, 117, 101]);
            self.check_keyword(length, ks, TokenType::True)
        } else if first == 119 {
            let k = [119u8, 104, 105, 108, 101];
            let ks = k.as_slice();
            assert(ks@ =~= seq![119u8, 104, 105, 108, 101]);
            self.check_keyword(length, ks, TokenType::While)
        } else {
            TokenType::Identifier
        };
        r
    }

    fn check_keyword(&self, length: CharacterPosition, keyword: &[u8], token_type: TokenType) -> (r:
        TokenType)
        requires
            self.wf(),
            self.position + length <= self.source@.len(),
        ensures
            r == if self.source@.subrange(self.position as int, self.position + length)
                == keyword@ {
                token_type
            } else {
                TokenType::Identifier
            },
    {
        let ghost w = self.source@.subrange(self.position as int, self.position + length);
        if length != keyword.len() {
            proof {
                assert(w.len() != keyword@.len());
            }
            return TokenType::Identifier;
        }
        let mut i: usize = 0;
        while i < length
            invariant
                self.wf(),
                self.position + length <= self.source@.len(),
                length == keyword@.len(),
                w == self.source@.subrange(self.position as int, self.position + length),
                i <= length,
                forall|j: int| 0 <= j < i ==> self.source@[self.position + j] == keyword@[j],
            decreases length - i,
        {
            if self.source[self.position + i] != keyword[i] {
                proof {
                    assert(w[i as int] != keyword@[i as int]);
                }
                return TokenType::Identifier;
            }
            i = i + 1;
        }
        proof {
            assert(w =~= keyword@);
        }
        token_type
    }
}

fn single_character_token(c: u8) -> (r: TokenType)
    ensures
        r == spec_single_character(c),
{
    match c {
        10 => TokenType::EndOfLine,
        40 => TokenType::LeftParen,
        41 => TokenType::RightParen,
        123 => TokenType::LeftBrace,
        125 => TokenType::RightBrace,
        44 => TokenType::Comma,
        46 => TokenType::Dot,
        43 => TokenType::Plus,
        45 => TokenType::Minus,
        47 => TokenType::Slash,
        42 => TokenType::Star,
        33 => TokenType::Bang,
        61 => TokenType::Equal,
        60 => TokenType::Less,
        62 => TokenType::Greater,
        58 => TokenType::Colon,
        _ => TokenType::Unknown,
    }
}

/// Splits a source into tokens. Every byte belongs to exactly one token, in
/// order: the tokens are those of `source_tokens`, and each holds the text
/// that it covers.
pub fn tokenize(source: &str) -> (tokens: Vec<Token>)
    requires
        tokenizable(bytes_of(source), 0, 1),
    ensures
        tokens@.len() == source_tokens(bytes_of(source)).len(),
        forall|i: int|
            0 <= i < tokens@.len() ==> {
                &&& (#[trigger] tokens@[i]).info() == source_tokens(bytes_of(source))[i]
                &&& bytes_of(tokens@[i].value) == bytes_of(source).subrange(
                    tokens@[i].start as int,
                    tokens@[i].end as int,
                )
            },
{
    let mut tokeniser = Tokeniser::new(source);
    let mut tokens: Vec<Token> = Vec::new();
    let ghost b = bytes_of(source);
    while tokeniser.tokens_left()
        invariant
            tokeniser.wf(),
            tokeniser.text == source,
            tokeniser.source@ == b,
            tokeniser.column <= tokeniser.position,
            tokens@.len() <= source_tokens(b).len(),
            tokenizable(b, tokeniser.position as int, tokeniser.line as int),
            spec_tokens(b, tokeniser.position as int, tokeniser.line as int, tokeniser.column as int)
                =~= source_tokens(b).skip(tokens@.len() as int),
            forall|i: int|
                0 <= i < tokens@.len() ==> {
                    &&& (#[trigger] tokens@[i]).info() == source_tokens(b)[i]
                    &&& bytes_of(tokens@[i].value) == b.subrange(
                        tokens@[i].start as int,
                        tokens@[i].end as int,
                    )
                },
        decreases b.len() - tokeniser.position,
    {
        let ghost before = tokeniser;
        let ghost k = tokens@.len() as int;
        proof {
            lemma_token_length_positive(b, tokeniser.position as int);
        }
        let token = tokeniser.next_token();
        proof {
            let all = source_tokens(b);
            let here = spec_tokens(b, before.position as int, before.line as int, before.column as int);
            assert(here.len() > 0);
            assert(here[0] == token.info());
            assert(all.skip(k)[0] == all[k]);
            assert(all.skip(k + 1) =~= all.skip(k).skip(1));
            assert(here.skip(1) =~= spec_tokens(
                b,
                tokeniser.position as int,
                tokeniser.line as int,
                tokeniser.column as int,
            ));
        }
        tokens.push(token);
    }
    proof {
        assert(source_tokens(b).skip(tokens@.len() as int).len() == 0);
    }
    tokens
}

/// The line and column of token `b` follow from those of `a`, the token
/// before it: a line break starts the next line at column 0; any other
/// token moves the column on by its length.
pub open spec fn next_position(a: TokenInfo, b: TokenInfo) -> bool {
    if a.ttype == TokenType::EndOfLine {
        b.line == a.line + 1 && b.column == 0
    } else {
        b.line == a.line && b.column == a.column + (a.end - a.start)
    }
}

/// The tokens from `p` cover `b[p..]`: the first starts at `p`, each starts
/// where the one before ends, none is empty, and the last ends at the end.
proof fn lemma_tokens_cover(b: Seq<u8>, p: int, line: int, column: int)
    requires
        0 <= p <= b.len(),
    ensures
        ({
            let t = spec_tokens(b, p, line, column);
            &&& (t.len() == 0 <==> p == b.len())
            &&& t.len() > 0 ==> t[0].start == p && t[t.len() - 1].end == b.len()
            &&& forall|i: int| 0 <= i < t.len() ==> p <= #[trigger] t[i].start < t[i].end <= b.len()
            &&& forall|i: int| 0 <= i < t.len() - 1 ==> #[trigger] t[i].end == t[i + 1].start
            &&& t.len() > 0 ==> t[0].line == line && t[0].column == column
            &&& forall|i: int| 0 <= i < t.len() - 1 ==> next_position(#[trigger] t[i], t[i + 1])
        }),
    decreases b.len() - p,
{
    if p < b.len() {
        lemma_token_length_positive(b, p);
        let (ty, n) = token_at(b, p);
        let next_line = if ty == TokenType::EndOfLine {
            line + 1
        } else {
            line
        };
        let next_column = if ty == TokenType::EndOfLine {
            0
        } else {
            column + n
        };
        lemma_tokens_cover(b, p + n, next_line, next_column);
        let t = spec_tokens(b, p, line, column);
        let rest = spec_tokens(b, p + n, next_line, next_column);
        assert(t == seq![TokenInfo { ttype: ty, start: p, end: p + n, line, column }] + rest);
        assert forall|i: int| 0 <= i < t.len() - 1 implies #[trigger] t[i].end == t[i + 1].start by {
            if i > 0 {
                assert(t[i] == rest[i - 1]);
                assert(t[i + 1] == rest[i]);
            }
        }
        assert forall|i: int| 0 <= i < t.len() - 1 implies next_position(#[trigger] t[i], t[i + 1]) by {
            if i > 0 {
                assert(t[i] == rest[i - 1]);
                assert(t[i + 1] == rest[i]);
            }
        }
        assert forall|i: int| 0 <= i < t.len() implies p <= #[trigger] t[i].start < t[i].end
            <= b.len() by {
            if i > 0 {
                assert(t[i] == rest[i - 1]);
            }
        }
    }
}

/// What `tokenize` gives covers the whole source, every byte in exactly
/// one token: the tokens follow one another without gap or overlap from
/// the first byte to the last, none is empty, and there are none for an
/// empty source. The first token is on line 1 at column 0, and each line
/// break moves the next token to the start of the next line.
pub proof fn law_tokens_partition_source(source: &str)
    ensures
        ({
            let b = bytes_of(source);
            let t = source_tokens(b);
            &&& (t.len() == 0 <==> b.len() == 0)
            &&& t.len() > 0 ==> t[0].start == 0 && t[t.len() - 1].end == b.len()
            &&& forall|i: int| 0 <= i < t.len() ==> 0 <= #[trigger] t[i].start < t[i].end <= b.len()
            &&& forall|i: int| 0 <= i < t.len() - 1 ==> #[trigger] t[i].end == t[i + 1].start
            &&& t.len() > 0 ==> t[0].line == 1 && t[0].column == 0
            &&& forall|i: int| 0 <= i < t.len() - 1 ==> next_position(#[trigger] t[i], t[i + 1])
        }),
{
    lemma_tokens_cover(bytes_of(source), 0, 1, 0);
}

/// Whether `tokenize` can run over the source (see `tokenizable`).
pub fn is_tokenizable(source: &str) -> (r: bool)
    ensures
        r == tokenizable(bytes_of(source), 0, 1),
{
    let mut tokeniser = Tokeniser::new(source);
    let ghost b = bytes_of(source);
    let mut line: u32 = 1;
    while tokeniser.tokens_left()
        invariant
            tokeniser.wf(),
            tokeniser.source@ == b,
            b == bytes_of(source),
            1 <= line <= LineNumber::MAX,
            tokenizable(b, 0, 1) == tokenizable(b, tokeniser.position as int, line as int),
        decreases b.len() - tokeniser.position,
    {
        let ghost p = tokeniser.position as int;
        let ghost l = line as int;
        if tokeniser.overruns() {
            return false;
        }
        let (token_type, length) = tokeniser.next_token_type();
        proof {
            lemma_token_length_positive(b, p);
        }
        let end = tokeniser.position + length;
        if end < tokeniser.source.len() && 0x80 <= tokeniser.source[end] && tokeniser.source[end]
            <= 0xbf {
            assert(!on_boundary(b, p + token_at(b, p).1));
            return false;
        }
        assert(on_boundary(b, end as int));
        if token_type == TokenType::EndOfLine {
            if line + 1 > 65535 {
                return false;
            }
            line = line + 1;
        }
        assert(tokenizable(b, p, l) == tokenizable(b, end as int, line as int));
        tokeniser.position = end;
    }
    true
}

} // verus!

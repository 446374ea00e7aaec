//! The tokeniser of the current front end. Unlike `crate::tokens` it knows
//! format strings (`'a ${b} c'`), keeps a stack of the quotes that are open,
//! and hands out whitespace only where it starts a line.
use crate::syntax::quotes::{quote_items, QuoteStack};
use crate::text::{
    byte_is_blank, byte_is_digit, byte_is_letter, bytes_of, is_blank, is_digit, is_letter,
    on_boundary, slice_str,
};
use crate::tokens::{blank_end, digits_end, lemma_blank_end, lemma_digits_end, lemma_line_end, line_end};
use vstd::prelude::*;

verus! {

pub type LineNumber = u16;

pub type CharacterPosition = u32;

pub type TokenLength = usize;

#[derive(Copy, Clone, Debug, PartialEq, Eq, Structural)]
pub enum TokenType {
    // Brackets
    LeftParen,
    RightParen,
    LeftBrace,
    RightBrace,
    LeftSquare,
    RightSquare,
    // Separators
    Comma,
    Dot,
    Colon,
    ColonColon,
    RightArrow,
    FatRightArrow,
    DotDot,
    // Type Operators
    Pipe,
    Question,
    // Operators
    Minus,
    Plus,
    Slash,
    Star,
    Bang,
    And,
    Or,
    QuestionQuestion,
    RightRight,
    // Comparators
    BangEqual,
    Equal,
    EqualEqual,
    Greater,
    GreaterEqual,
    Less,
    LessEqual,
    // Assignment Operators
    PlusEqual,
    MinusEqual,
    StarEqual,
    SlashEqual,
    // Values
    Identifier,
    String,
    Number,
    True,
    False,
    Null,
    // Format String
    FormatStringStart,
    FormatStringPart,
    FormatStringEnd,
    // Keywords
    As,
    Else,
    If,
    Import,
    From,
    Let,
    Return,
    While,
    // Blank
    Comment,
    Whitespace,
    EndOfLine,
    EndOfFile,
    Unknown,
}

impl TokenType {
    pub open spec fn spec_is_assignment_operator(self) -> bool {
        self == TokenType::PlusEqual || self == TokenType::MinusEqual || self
            == TokenType::StarEqual || self == TokenType::SlashEqual
    }

    /// `+=`, `-=`, `*=` and `/=`.
    #[verifier::when_used_as_spec(spec_is_assignment_operator)]
    pub fn is_assignment_operator(self) -> (r: bool)
        ensures
            r == self.spec_is_assignment_operator(),
    {
        match self {
            Self::PlusEqual | Self::MinusEqual | Self::StarEqual | Self::SlashEqual => true,
            _ => false,
        }
    }
}

/// A token: its kind, the byte range it covers and the line it is on.
#[derive(Clone, Copy, Debug)]
pub struct Token {
    pub ttype: TokenType,
    pub start: CharacterPosition,
    pub end: CharacterPosition,
    pub line: LineNumber,
}

impl Token {
    /// The token that stands for the end of the source.
    pub open spec fn spec_eof() -> Token {
        Token { ttype: TokenType::EndOfFile, start: 0, end: 0, line: 0 }
    }

    pub fn eof() -> (r: Token)
        ensures
            r == Token::spec_eof(),
    {
        Token { ttype: TokenType::EndOfFile, start: 0, end: 0, line: 0 }
    }

    /// The token lies in a source of `n` bytes and ends where a character
    /// ends.
    pub open spec fn within(self, b: Seq<u8>) -> bool {
        &&& self.start <= self.end <= b.len()
        &&& on_boundary(b, self.start as int)
        &&& on_boundary(b, self.end as int)
    }

    /// The text of the token: its bytes, which are valid UTF-8 when both
    /// ends fall between characters or the token is empty.
    pub fn get_value<'s>(&self, source: &'s str) -> (r: &'s str)
        requires
            self.start <= self.end <= bytes_of(source).len(),
            self.start == self.end || (on_boundary(bytes_of(source), self.start as int)
                && on_boundary(bytes_of(source), self.end as int)),
        ensures
            bytes_of(r) == bytes_of(source).subrange(self.start as int, self.end as int),
    {
        if self.start == self.end {
            let empty = "";
            proof {
                reveal_strlit("");
                assert(bytes_of(empty) =~= Seq::<u8>::empty());
            }
            return empty;
        }
        slice_str(source, self.start as usize, self.end as usize)
    }

    /// The number of bytes the token covers.
    pub fn len(&self) -> (r: CharacterPosition)
        requires
            self.start <= self.end,
        ensures
            r == self.end - self.start,
    {
        self.end - self.start
    }
}

/// Where the tokeniser stands: the next byte, the current line, the quotes
/// of the format strings it is inside, and the kind of the last token it
/// handed out.
pub struct LexState {
    pub position: int,
    pub line: int,
    pub quotes: Seq<u8>,
    pub last: TokenType,
}

pub open spec fn spec_two_character(c: u8, d: u8) -> Option<TokenType> {
    if c == 33 && d == 61 {
        Some(TokenType::BangEqual)
    } else if c == 61 && d == 61 {
        Some(TokenType::EqualEqual)
    } else if c == 60 && d == 61 {
        Some(TokenType::LessEqual)
    } else if c == 62 && d == 61 {
        Some(TokenType::GreaterEqual)
    } else if c == 43 && d == 61 {
        Some(TokenType::PlusEqual)
    } else if c == 45 && d == 61 {
        Some(TokenType::MinusEqual)
    } else if c == 42 && d == 61 {
        Some(TokenType::StarEqual)
    } else if c == 47 && d == 61 {
        Some(TokenType::SlashEqual)
    } else if c == 45 && d == 62 {
        Some(TokenType::RightArrow)
    } else if c == 61 && d == 62 {
        Some(TokenType::FatRightArrow)
    } else if c == 38 && d == 38 {
        Some(TokenType::And)
    } else if c == 124 && d == 124 {
        Some(TokenType::Or)
    } else if c == 63 && d == 63 {
        Some(TokenType::QuestionQuestion)
    } else if c == 62 && d == 62 {
        Some(TokenType::RightRight)
    } else if c == 46 && d == 46 {
        Some(TokenType::DotDot)
    } else if c == 58 && d == 58 {
        Some(TokenType::ColonColon)
    } else {
        None
    }
}

pub open spec fn spec_single_character(c: u8) -> TokenType {
    if c == 10 {
        TokenType::EndOfLine
    } else if c == 40 {
        TokenType::LeftParen
    } else if c == 41 {
        TokenType::RightParen
    } else if c == 123 {
        TokenType::LeftBrace
    } else if c == 125 {
        TokenType::RightBrace
    } else if c == 91 {
        TokenType::LeftSquare
    } else if c == 93 {
        TokenType::RightSquare
    } else if c == 44 {
        TokenType::Comma
    } else if c == 46 {
        TokenType::Dot
    } else if c == 43 {
        TokenType::Plus
    } else if c == 45 {
        TokenType::Minus
    } else if c == 47 {
        TokenType::Slash
    } else if c == 42 {
        TokenType::Star
    } else if c == 33 {
        TokenType::Bang
    } else if c == 61 {
        TokenType::Equal
    } else if c == 60 {
        TokenType::Less
    } else if c == 62 {
        TokenType::Greater
    } else if c == 58 {
        TokenType::Colon
    } else if c == 124 {
        TokenType::Pipe
    } else if c == 63 {
        TokenType::Question
    } else {
        TokenType::Unknown
    }
}

/// `${` starts at `p`.
pub open spec fn interpolation_at(b: Seq<u8>, p: int) -> bool {
    0 <= p && p + 1 < b.len() && b[p] == 36 && b[p + 1] == 123
}

/// The first position at or after `p` that is the end, holds `quote`, or
/// starts `${`.
pub open spec fn string_stop(b: Seq<u8>, p: int, quote: u8) -> int
    decreases b.len() - p,
{
    if 0 <= p < b.len() && b[p] != quote && !interpolation_at(b, p) {
        string_stop(b, p + 1, quote)
    } else {
        p
    }
}

/// The number of newlines in `b[from..to]`.
pub open spec fn count_newlines(b: Seq<u8>, from: int, to: int) -> int
    decreases to - from,
{
    if from < to {
        (if 0 <= from < b.len() && b[from] == 10 { 1int } else { 0int }) + count_newlines(
            b,
            from + 1,
            to,
        )
    } else {
        0
    }
}

pub open spec fn is_word_byte(c: u8) -> bool {
    is_letter(c) || is_digit(c) || c == 95
}

/// The first position at or after `p` that holds no letter, digit or `_`.
pub open spec fn word_end(b: Seq<u8>, p: int) -> int
    decreases b.len() - p,
{
    if 0 <= p < b.len() && is_word_byte(b[p]) {
        word_end(b, p + 1)
    } else {
        p
    }
}

pub open spec fn number_end(b: Seq<u8>, p: int) -> int {
    let q = digits_end(b, p + 1);
    if q < b.len() && b[q] == 46 && q + 1 < b.len() && is_digit(b[q + 1]) {
        digits_end(b, q + 1)
    } else {
        digits_end(b, q)
    }
}

/// The scan of a number reads the byte after a `.` that ends the source.
pub open spec fn number_overruns(b: Seq<u8>, p: int) -> bool {
    let q = digits_end(b, p + 1);
    q < b.len() && b[q] == 46 && q + 1 == b.len()
}

pub open spec fn keyword_type(w: Seq<u8>) -> TokenType {
    if w == seq![97u8, 110, 100] {
        TokenType::And
    } else if w == seq![97u8, 115] {
        TokenType::As
    } else if w == seq![101u8, 108, 115, 101] {
        TokenType::Else
    } else if w == seq![102u8, 97, 108, 115, 101] {
        TokenType::False
    } else if w == seq![102u8, 114, 111, 109] {
        TokenType::From
    } else if w == seq![105u8, 102] {
        TokenType::If
    } else if w == seq![105u8, 109, 112, 111, 114, 116] {
        TokenType::Import
    } else if w == seq![108u8, 101, 116] {
        TokenType::Let
    } else if w == seq![110u8, 117, 108, 108] {
        TokenType::Null
    } else if w == seq![111u8, 114] {
        TokenType::Or
    } else if w == seq![114u8, 101, 116, 117, 114, 110] {
        TokenType::Return
    } else if w == seq![116u8, 114, 117, 101] {
        TokenType::True
    } else if w == seq![119u8, 104, 105, 108, 101] {
        TokenType::While
    } else {
        TokenType::Identifier
    }
}

pub open spec fn is_quote(c: u8) -> bool {
    c == 34 || c == 39 || c == 96
}

/// The token that starts at `p` when `quotes` are open: its kind, its
/// length, the quotes that are open after it and the newlines it spans.
pub open spec fn raw_token(b: Seq<u8>, p: int, quotes: Seq<u8>) -> (TokenType, int, Seq<u8>, int) {
    let c = b[p];
    if p + 1 < b.len() && spec_two_character(c, b[p + 1]) is Some {
        (spec_two_character(c, b[p + 1])->0, 2, quotes, 0)
    } else if is_quote(c) {
        let q = string_stop(b, p + 1, c);
        let n = count_newlines(b, p + 1, q);
        if q >= b.len() {
            (TokenType::String, q - p, quotes, n)
        } else if b[q] == c {
            (TokenType::String, q + 1 - p, quotes, n)
        } else {
            (TokenType::FormatStringStart, q + 2 - p, quotes.push(c), n)
        }
    } else if is_digit(c) {
        (TokenType::Number, number_end(b, p) - p, quotes, 0)
    } else if is_blank(c) {
        (TokenType::Whitespace, blank_end(b, p) - p, quotes, 0)
    } else if is_letter(c) || c == 95 {
        let q = word_end(b, p + 1);
        (keyword_type(b.subrange(p, q)), q - p, quotes, 0)
    } else if c == 47 && p + 1 < b.len() && b[p + 1] == 47 {
        (TokenType::Comment, line_end(b, p + 2) - p, quotes, 0)
    } else if c == 46 && p + 1 < b.len() && is_digit(b[p + 1]) {
        (TokenType::Number, number_end(b, p) - p, quotes, 0)
    } else if c == 125 && quotes.len() > 0 {
        let quote = quotes.last();
        let q = string_stop(b, p + 1, quote);
        let n = count_newlines(b, p + 1, q);
        if q >= b.len() {
            (TokenType::FormatStringEnd, q - p, quotes, n)
        } else if b[q] == quote {
            (TokenType::FormatStringEnd, q + 1 - p, quotes.drop_last(), n)
        } else {
            (TokenType::FormatStringPart, q + 2 - p, quotes, n)
        }
    } else {
        (spec_single_character(c), 1, quotes, 0)
    }
}

/// Reading the token at `p` would go out of bounds.
pub open spec fn raw_overruns(b: Seq<u8>, p: int) -> bool {
    let c = b[p];
    if p + 1 < b.len() && spec_two_character(c, b[p + 1]) is Some {
        false
    } else if is_quote(c) {
        false
    } else if is_digit(c) {
        number_overruns(b, p)
    } else if is_blank(c) || is_letter(c) || c == 95 {
        false
    } else if c == 47 && p + 1 < b.len() && b[p + 1] == 47 {
        false
    } else if c == 46 && p + 1 < b.len() && is_digit(b[p + 1]) {
        number_overruns(b, p)
    } else {
        false
    }
}

/// One step of the tokeniser: the token at the current position, whitespace
/// included, and the state after it.
pub open spec fn lex_step(b: Seq<u8>, st: LexState) -> (Token, LexState) {
    let (t, n, quotes, newlines) = raw_token(b, st.position, st.quotes);
    let line = st.line + newlines;
    let token = Token {
        ttype: t,
        start: st.position as u32,
        end: (st.position + n) as u32,
        line: line as u16,
    };
    let next = LexState {
        position: st.position + n,
        line: if t == TokenType::EndOfLine { line + 1 } else { line },
        quotes,
        last: st.last,
    };
    (token, next)
}

/// The next token that the tokeniser hands out, and its state after: a
/// whitespace token is passed over unless it follows the end of a line.
pub open spec fn lex_next(b: Seq<u8>, st: LexState) -> (Option<Token>, LexState)
    decreases b.len() - st.position,
{
    if st.position < 0 || st.position >= b.len() {
        (None, st)
    } else {
        let (token, next) = lex_step(b, st);
        if next.position <= st.position || next.position > b.len() {
            (None, st)
        } else if token.ttype == TokenType::Whitespace && st.last != TokenType::EndOfLine {
            lex_next(b, next)
        } else {
            (Some(token), LexState { last: token.ttype, ..next })
        }
    }
}

/// From `st` on, no step of the tokeniser goes out of bounds, every token
/// ends where a character ends, and lines and positions fit their types.
pub open spec fn lexable(b: Seq<u8>, st: LexState) -> bool
    decreases b.len() - st.position,
{
    if st.position < 0 || st.position >= b.len() {
        true
    } else {
        let (t, n, quotes, newlines) = raw_token(b, st.position, st.quotes);
        let (token, next) = lex_step(b, st);
        &&& !raw_overruns(b, st.position)
        &&& b[st.position] < 128
        &&& n > 0
        &&& st.position + n <= b.len()
        &&& on_boundary(b, st.position + n)
        &&& next.line <= LineNumber::MAX
        &&& lexable(b, next)
    }
}

/// A source that the tokeniser can run over from its start.
pub open spec fn source_lexable(b: Seq<u8>) -> bool {
    &&& b.len() <= u32::MAX
    &&& lexable(b, initial_state())
}

pub open spec fn initial_state() -> LexState {
    LexState { position: 0, line: 1, quotes: Seq::empty(), last: TokenType::Unknown }
}

pub proof fn lemma_string_stop(b: Seq<u8>, p: int, quote: u8)
    requires
        0 <= p <= b.len(),
    ensures
        p <= string_stop(b, p, quote) <= b.len(),
        string_stop(b, p, quote) < b.len() ==> b[string_stop(b, p, quote)] == quote
            || interpolation_at(b, string_stop(b, p, quote)),
    decreases b.len() - p,
{
    if 0 <= p < b.len() && b[p] != quote && !interpolation_at(b, p) {
        lemma_string_stop(b, p + 1, quote);
    }
}

pub proof fn lemma_count_newlines(b: Seq<u8>, from: int, to: int)
    requires
        from <= to,
    ensures
        0 <= count_newlines(b, from, to) <= to - from,
    decreases to - from,
{
    if from < to {
        lemma_count_newlines(b, from + 1, to);
    }
}

pub proof fn lemma_count_newlines_step(b: Seq<u8>, from: int, to: int)
    requires
        from <= to,
        0 <= to < b.len(),
    ensures
        count_newlines(b, from, to + 1) == count_newlines(b, from, to) + (if b[to] == 10 {
            1int
        } else {
            0int
        }),
    decreases to - from,
{
    if from < to {
        lemma_count_newlines_step(b, from + 1, to);
    } else {
        assert(count_newlines(b, from, from) == 0);
        assert(count_newlines(b, to + 1, to + 1) == 0);
    }
}

pub proof fn lemma_word_end(b: Seq<u8>, p: int)
    requires
        0 <= p <= b.len(),
    ensures
        p <= word_end(b, p) <= b.len(),
        word_end(b, p) < b.len() ==> !is_word_byte(b[word_end(b, p)]),
    decreases b.len() - p,
{
    if p < b.len() && is_word_byte(b[p]) {
        lemma_word_end(b, p + 1);
    }
}

/// Each step of the tokeniser moves forward within the source, and keeps no
/// more open quotes than bytes it has read.
pub proof fn lemma_raw_token(b: Seq<u8>, p: int, quotes: Seq<u8>)
    requires
        0 <= p < b.len(),
        quotes.len() <= p,
    ensures
        raw_token(b, p, quotes).1 > 0,
        !raw_overruns(b, p) ==> p + raw_token(b, p, quotes).1 <= b.len(),
        raw_token(b, p, quotes).2.len() <= p + raw_token(b, p, quotes).1,
        raw_token(b, p, quotes).3 >= 0,
{
    let c = b[p];
    lemma_string_stop(b, p + 1, c);
    lemma_blank_end(b, p);
    lemma_digits_end(b, p + 1);
    lemma_word_end(b, p + 1);
    if p + 1 < b.len() {
        lemma_line_end(b, p + 2);
    }
    let q = digits_end(b, p + 1);
    lemma_digits_end(b, q);
    if q + 1 <= b.len() {
        lemma_digits_end(b, q + 1);
    }
    let s = string_stop(b, p + 1, c);
    lemma_count_newlines(b, p + 1, s);
    if quotes.len() > 0 {
        let s2 = string_stop(b, p + 1, quotes.last());
        lemma_string_stop(b, p + 1, quotes.last());
        lemma_count_newlines(b, p + 1, s2);
    }
}

/// A tokeniser over a source.
pub struct Tokeniser<'source> {
    text: &'source str,
    source: &'source [u8],
    line: LineNumber,
    position: usize,
    quote_stack: QuoteStack,
    last_type: TokenType,
}

impl<'source> Tokeniser<'source> {
    pub closed spec fn state(&self) -> LexState {
        LexState {
            position: self.position as int,
            line: self.line as int,
            quotes: quote_items(self.quote_stack),
            last: self.last_type,
        }
    }

    pub closed spec fn bytes(&self) -> Seq<u8> {
        self.source@
    }

    pub closed spec fn text(&self) -> &'source str {
        self.text
    }

    /// The tokeniser reads `text` and can run to its end.
    pub closed spec fn wf(&self) -> bool {
        &&& self.source@ == bytes_of(self.text)
        &&& self.source@.len() <= u32::MAX
        &&& self.position <= self.source@.len()
        &&& on_boundary(self.source@, self.position as int)
        &&& quote_items(self.quote_stack).len() <= self.position
        &&& lexable(self.source@, self.state())
    }

    /// What a well-formed tokeniser's state satisfies.
    pub proof fn lemma_wf(&self)
        requires
            self.wf(),
        ensures
            self.bytes() == bytes_of(self.text()),
            self.bytes().len() <= u32::MAX,
            0 <= self.state().position <= self.bytes().len(),
            on_boundary(self.bytes(), self.state().position),
            self.state().quotes.len() <= self.state().position,
            lexable(self.bytes(), self.state()),
    {
    }

    pub fn new(source: &'source str) -> (r: Tokeniser<'source>)
        requires
            source_lexable(bytes_of(source)),
        ensures
            r.wf(),
            r.bytes() == bytes_of(source),
            r.text() == source,
            r.state() == initial_state(),
    {
        let bytes = source.as_bytes();
        let _ = bytes.len();
        proof {
            vstd::utf8::encode_utf8_valid_utf8(source@);
            if bytes@.len() > 0 {
                vstd::utf8::is_char_boundary_start_end_of_seq(bytes@);
                vstd::utf8::is_char_boundary_iff_not_is_continuation_byte(bytes@, 0);
            }
        }
        Tokeniser {
            text: source,
            source: bytes,
            line: 1,
            position: 0,
            quote_stack: QuoteStack::new(),
            last_type: TokenType::Unknown,
        }
    }

    /// A tokeniser in the same state, which runs on independently.
    pub fn duplicate(&self) -> (r: Tokeniser<'source>)
        ensures
            r.state() == self.state(),
            r.bytes() == self.bytes(),
            r.text() == self.text(),
            r.wf() == self.wf(),
    {
        Tokeniser {
            text: self.text,
            source: self.source,
            line: self.line,
            position: self.position,
            quote_stack: self.quote_stack.duplicate(),
            last_type: self.last_type,
        }
    }

    fn at_end(&self, position: usize) -> (r: bool)
        ensures
            r == (position >= self.source@.len()),
    {
        position >= self.source.len()
    }

    fn next_token(&mut self) -> (token: Token)
        requires
            old(self).wf(),
            old(self).position < old(self).source@.len(),
        ensures
            final(self).wf(),
            final(self).bytes() == old(self).bytes(),
            final(self).text() == old(self).text(),
            (token, final(self).state()) == lex_step(old(self).bytes(), old(self).state()),
            token.within(old(self).bytes()),
            token.start == old(self).position,
            final(self).position > old(self).position,
    {
        let ghost b = self.source@;
        let ghost st = self.state();
        proof {
            lemma_raw_token(b, st.position, st.quotes);
        }
        let (ttype, len) = self.next_token_type();
        let token = Token {
            ttype,
            start: self.position as CharacterPosition,
            end: (self.position + len) as CharacterPosition,
            line: self.line,
        };
        self.position = self.position + len;
        if token.ttype == TokenType::EndOfLine {
            self.line = self.line + 1;
        }
        proof {
            assert(on_boundary(b, st.position));
        }
        token
    }

    fn next_token_type(&mut self) -> (r: (TokenType, TokenLength))
        requires
            old(self).wf(),
            old(self).position < old(self).source@.len(),
        ensures
            ({
                let (t, n, quotes, newlines) = raw_token(
                    old(self).bytes(),
                    old(self).position as int,
                    old(self).state().quotes,
                );
                &&& r.0 == t
                &&& r.1 == n
                &&& final(self).state().quotes == quotes
                &&& final(self).line == old(self).line + newlines
            }),
            final(self).position == old(self).position,
            final(self).last_type == old(self).last_type,
            final(self).source == old(self).source,
            final(self).text == old(self).text,
    {
        let ghost b = self.source@;
        let ghost p = self.position as int;
        proof {
            lemma_raw_token(b, p, quote_items(self.quote_stack));
        }
        let character = self.source[self.position];
        if let Some(token_type) = self.two_character_token() {
            return (token_type, 2);
        }
        let has_next = self.position + 1 < self.source.len();
        if character == 34 || character == 39 || character == 96 {
            self.string(character)
        } else if byte_is_digit(character) {
            (TokenType::Number, self.number())
        } else if byte_is_blank(character) {
            (TokenType::Whitespace, self.whitespace())
        } else if byte_is_letter(character) || character == 95 {
            self.identifier()
        } else if character == 47 && has_next && self.source[self.position + 1] == 47 {
            (TokenType::Comment, self.comment())
        } else if character == 46 && has_next && byte_is_digit(self.source[self.position + 1]) {
            (TokenType::Number, self.number())
        } else if character == 125 && !self.quote_stack.is_empty() {
            self.format_string()
        } else {
            (single_character_token(character), 1)
        }
    }

    fn two_character_token(&self) -> (r: Option<TokenType>)
        requires
            self.position < self.source@.len(),
            self.source@.len() <= u32::MAX,
        ensures
            r == (if self.position + 1 < self.source@.len() {
                spec_two_character(
                    self.source@[self.position as int],
                    self.source@[self.position + 1],
                )
            } else {
                None
            }),
    {
        if self.position + 1 >= self.source.len() {
            return None;
        }
        let c = self.source[self.position];
        let d = self.source[self.position + 1];
        if c == 33 && d == 61 {
            Some(TokenType::BangEqual)
        } else if c == 61 && d == 61 {
            Some(TokenType::EqualEqual)
        } else if c == 60 && d == 61 {
            Some(TokenType::LessEqual)
        } else if c == 62 && d == 61 {
            Some(TokenType::GreaterEqual)
        } else if c == 43 && d == 61 {
            Some(TokenType::PlusEqual)
        } else if c == 45 && d == 61 {
            Some(TokenType::MinusEqual)
        } else if c == 42 && d == 61 {
            Some(TokenType::StarEqual)
        } else if c == 47 && d == 61 {
            Some(TokenType::SlashEqual)
        } else if c == 45 && d == 62 {
            Some(TokenType::RightArrow)
        } else if c == 61 && d == 62 {
            Some(TokenType::FatRightArrow)
        } else if c == 38 && d == 38 {
            Some(TokenType::And)
        } else if c == 124 && d == 124 {
            Some(TokenType::Or)
        } else if c == 63 && d == 63 {
            Some(TokenType::QuestionQuestion)
        } else if c == 62 && d == 62 {
            Some(TokenType::RightRight)
        } else if c == 46 && d == 46 {
            Some(TokenType::DotDot)
        } else if c == 58 && d == 58 {
            Some(TokenType::ColonColon)
        } else {
            None
        }
    }

    fn whitespace(&self) -> (r: TokenLength)
        requires
            self.position <= self.source@.len(),
        ensures
            r == blank_end(self.source@, self.position as int) - self.position,
    {
        let ghost b = self.source@;
        let mut position = self.position;
        while !self.at_end(position) && byte_is_blank(self.source[position])
            invariant
                b == self.source@,
                self.position <= position <= b.len(),
                blank_end(b, position as int) == blank_end(b, self.position as int),
            decreases b.len() - position,
        {
            position = position + 1;
        }
        position - self.position
    }

    fn comment(&self) -> (r: TokenLength)
        requires
            self.position + 2 <= self.source@.len(),
            self.source@.len() <= u32::MAX,
        ensures
            r == line_end(self.source@, self.position + 2) - self.position,
    {
        let ghost b = self.source@;
        let mut position = self.position + 2;
        while !self.at_end(position) && self.source[position] != 10
            invariant
                b == self.source@,
                self.position + 2 <= position <= b.len(),
                line_end(b, position as int) == line_end(b, self.position + 2),
            decreases b.len() - position,
        {
            position = position + 1;
        }
        position - self.position
    }

    /// Scans to the end of a string, or of the text before `${`, from the
    /// byte after `self.position`; counts the newlines on the way.
    fn scan_string(&mut self, quote: u8) -> (r: usize)
        requires
            old(self).position < old(self).source@.len(),
            old(self).source@.len() <= u32::MAX,
            old(self).line + count_newlines(
                old(self).source@,
                old(self).position + 1,
                string_stop(old(self).source@, old(self).position + 1, quote),
            ) <= LineNumber::MAX,
        ensures
            r == string_stop(old(self).bytes(), old(self).position + 1, quote),
            final(self).line == old(self).line + count_newlines(
                old(self).bytes(),
                old(self).position + 1,
                r as int,
            ),
            final(self).position == old(self).position,
            final(self).source == old(self).source,
            final(self).text == old(self).text,
            final(self).quote_stack == old(self).quote_stack,
            final(self).last_type == old(self).last_type,
    {
        let ghost b = self.source@;
        let ghost start = self.position + 1;
        let ghost line0 = self.line as int;
        let ghost stop = string_stop(b, start, quote);
        proof {
            lemma_string_stop(b, start, quote);
        }
        let mut pos = self.position + 1;
        loop
            invariant
                b == self.source@,
                b.len() <= u32::MAX,
                start <= pos <= stop,
                stop == string_stop(b, start, quote),
                string_stop(b, pos as int, quote) == stop,
                start == old(self).position + 1,
                b == old(self).source@,
                line0 == old(self).line,
                self.line == line0 + count_newlines(b, start, pos as int),
                line0 + count_newlines(b, start, stop) <= LineNumber::MAX,
                self.position == start - 1,
                self.source == old(self).source,
                self.text == old(self).text,
                self.quote_stack == old(self).quote_stack,
                self.last_type == old(self).last_type,
            decreases b.len() - pos,
        {
            if self.at_end(pos) {
                return pos;
            }
            if self.source[pos] == quote {
                return pos;
            }
            if self.source[pos] == 36 && pos + 1 < self.source.len() && self.source[pos + 1]
                == 123 {
                return pos;
            }
            proof {
                assert(string_stop(b, pos as int, quote) == string_stop(b, pos + 1, quote));
                lemma_string_stop(b, pos + 1, quote);
                lemma_count_newlines_step(b, start, pos as int);
                lemma_count_newlines(b, pos + 1, stop);
                lemma_count_newlines_split(b, start, pos + 1, stop);
            }
            if self.source[pos] == 10 {
                self.line = self.line + 1;
            }
            pos = pos + 1;
        }
    }

    fn string(&mut self, quote: u8) -> (r: (TokenType, TokenLength))
        requires
            old(self).wf(),
            old(self).position < old(self).source@.len(),
            old(self).source@[old(self).position as int] == quote,
            is_quote(quote),
            !(old(self).position + 1 < old(self).source@.len() && spec_two_character(
                quote,
                old(self).source@[old(self).position + 1],
            ) is Some),
        ensures
            ({
                let (t, n, quotes, newlines) = raw_token(
                    old(self).bytes(),
                    old(self).position as int,
                    old(self).state().quotes,
                );
                &&& r.0 == t
                &&& r.1 == n
                &&& final(self).state().quotes == quotes
                &&& final(self).line == old(self).line + newlines
            }),
            final(self).position == old(self).position,
            final(self).last_type == old(self).last_type,
            final(self).source == old(self).source,
            final(self).text == old(self).text,
    {
        let ghost b = self.source@;
        proof {
            let (t, n, quotes, newlines) = raw_token(b, self.position as int, self.state().quotes);
            lemma_raw_token(b, self.position as int, self.state().quotes);
            assert(self.line + newlines <= LineNumber::MAX) by {
                lemma_lexable_line(b, self.state());
            }
        }
        let pos = self.scan_string(quote);
        proof {
            lemma_string_stop(b, self.position + 1, quote);
        }
        if self.at_end(pos) {
            (TokenType::String, pos - self.position)
        } else if self.source[pos] == quote {
            (TokenType::String, pos - self.position + 1)
        } else {
            self.quote_stack.push(quote);
            (TokenType::FormatStringStart, pos - self.position + 2)
        }
    }

    fn format_string(&mut self) -> (r: (TokenType, TokenLength))
        requires
            old(self).wf(),
            old(self).position < old(self).source@.len(),
            old(self).source@[old(self).position as int] == 125,
            quote_items(old(self).quote_stack).len() > 0,
        ensures
            ({
                let (t, n, quotes, newlines) = raw_token(
                    old(self).bytes(),
                    old(self).position as int,
                    old(self).state().quotes,
                );
                &&& r.0 == t
                &&& r.1 == n
                &&& final(self).state().quotes == quotes
                &&& final(self).line == old(self).line + newlines
            }),
            final(self).position == old(self).position,
            final(self).last_type == old(self).last_type,
            final(self).source == old(self).source,
            final(self).text == old(self).text,
    {
        let ghost b = self.source@;
        proof {
            lemma_raw_token(b, self.position as int, self.state().quotes);
            lemma_lexable_line(b, self.state());
        }
        let quote = match self.quote_stack.last() {
            Some(q) => q,
            None => 0,
        };
        let pos = self.scan_string(quote);
        proof {
            lemma_string_stop(b, self.position + 1, quote);
        }
        if self.at_end(pos) {
            (TokenType::FormatStringEnd, pos - self.position)
        } else if self.source[pos] == quote {
            let _ = self.quote_stack.pop();
            (TokenType::FormatStringEnd, pos - self.position + 1)
        } else {
            (TokenType::FormatStringPart, pos - self.position + 2)
        }
    }

    fn number(&self) -> (r: TokenLength)
        requires
            self.position < self.source@.len(),
            self.source@.len() <= u32::MAX,
            !number_overruns(self.source@, self.position as int),
        ensures
            r == number_end(self.source@, self.position as int) - self.position,
    {
        let ghost b = self.source@;
        let mut position = self.position + 1;
        while !self.at_end(position) && (byte_is_digit(self.source[position])
            || self.source[position] == 95)
            invariant
                b == self.source@,
                b.len() <= u32::MAX,
                self.position + 1 <= position <= b.len(),
                digits_end(b, position as int) == digits_end(b, self.position + 1),
            decreases b.len() - position,
        {
            assert(digits_end(b, position as int) == digits_end(b, position + 1));
            position = position + 1;
        }
        proof {
            lemma_digits_end(b, position as int);
        }
        if !self.at_end(position) && self.source[position] == 46 && byte_is_digit(
            self.source[position + 1],
        ) {
            position = position + 1;
        }
        let ghost from = position;
        while !self.at_end(position) && (byte_is_digit(self.source[position])
            || self.source[position] == 95)
            invariant
                b == self.source@,
                b.len() <= u32::MAX,
                from <= position <= b.len(),
                digits_end(b, position as int) == digits_end(b, from as int),
            decreases b.len() - position,
        {
            assert(digits_end(b, position as int) == digits_end(b, position + 1));
            position = position + 1;
        }
        position - self.position
    }

    fn identifier(&self) -> (r: (TokenType, TokenLength))
        requires
            self.position < self.source@.len(),
            self.source@.len() <= u32::MAX,
        ensures
            ({
                let q = word_end(self.source@, self.position + 1);
                r == (keyword_type(self.source@.subrange(self.position as int, q)), (q
                    - self.position) as usize)
            }),
    {
        let ghost b = self.source@;
        let mut position = self.position;
        while !self.at_end(position + 1) && (byte_is_letter(self.source[position + 1])
            || byte_is_digit(self.source[position + 1]) || self.source[position + 1] == 95)
            invariant
                b == self.source@,
                b.len() <= u32::MAX,
                self.position <= position < b.len(),
                word_end(b, position + 1) == word_end(b, self.position + 1),
            decreases b.len() - position,
        {
            assert(word_end(b, position + 1) == word_end(b, position + 2));
            position = position + 1;
        }
        proof {
            lemma_word_end(b, self.position + 1);
        }
        let length = position - self.position + 1;
        (self.identifier_type(length), length)
    }

    fn identifier_type(&self, length: TokenLength) -> (r: TokenType)
        requires
            1 <= length,
            self.position + length <= self.source@.len(),
            self.source@.len() <= u32::MAX,
        ensures
            r == keyword_type(
                self.source@.subrange(self.position as int, self.position + length),
            ),
    {
        let ghost w = self.source@.subrange(self.position as int, self.position + length);
        let first = self.source[self.position];
        assert(w[0] == first);
        if length >= 2 {
            assert(w[1] == self.source@[self.position + 1]);
        }
        proof {
            lemma_keyword_dispatch(w);
        }
        let second = if self.position + 1 < self.source.len() {
            Some(self.source[self.position + 1])
        } else {
            None
        };
        if first == 97 {
            if second == Some(110u8) {
                let k = [97u8, 110, 100];
                let ks = k.as_slice();
                assert(ks@ =~= seq![97u8, 110, 100]);
                self.check_keyword(length, ks, TokenType::And)
            } else if second == Some(115u8) {
                let k = [97u8, 115];
                let ks = k.as_slice();
                assert(ks@ =~= seq![97u8, 115]);
                self.check_keyword(length, ks, TokenType::As)
            } else {
                TokenType::Identifier
            }
        } else if first == 101 {
            let k = [101u8, 108, 115, 101];
            let ks = k.as_slice();
            assert(ks@ =~= seq![101u8, 108, 115, 101]);
            self.check_keyword(length, ks, TokenType::Else)
        } else if first == 102 {
            if second == Some(97u8) {
                let k = [102u8, 97, 108, 115, 101];
                let ks = k.as_slice();
                assert(ks@ =~= seq![102u8, 97, 108, 115, 101]);
                self.check_keyword(length, ks, TokenType::False)
            } else if second == Some(114u8) {
                let k = [102u8, 114, 111, 109];
                let ks = k.as_slice();
                assert(ks@ =~= seq![102u8, 114, 111, 109]);
                self.check_keyword(length, ks, TokenType::From)
            } else {
                TokenType::Identifier
            }
        } else if first == 105 {
            if second == Some(102u8) {
                let k = [105u8, 102];
                let ks = k.as_slice();
                assert(ks@ =~= seq![105u8, 102]);
                self.check_keyword(length, ks, TokenType::If)
            } else if second == Some(109u8) {
                let k = [105u8, 109, 112, 111, 114, 116];
                let ks = k.as_slice();
                assert(ks@ =~= seq![105u8, 109, 112, 111, 114, 116]);
                self.check_keyword(length, ks, TokenType::Import)
            } else {
                TokenType::Identifier
            }
        } else if first == 108 {
            let k = [108u8, 101, 116];
            let ks = k.as_slice();
            assert(ks@ =~= seq![108u8, 101, 116]);
            self.check_keyword(length, ks, TokenType::Let)
        } else if first == 110 {
            let k = [110u8, 117, 108, 108];
            let ks = k.as_slice();
            assert(ks@ =~= seq![110u8, 117, 108, 108]);
            self.check_keyword(length, ks, TokenType::Null)
        } else if first == 111 {
            let k = [111u8, 114];
            let ks = k.as_slice();
            assert(ks@ =~= seq![111u8, 114]);
            self.check_keyword(length, ks, TokenType::Or)
        } else if first == 114 {
            let k = [114u8, 101, 116, 117, 114, 110];
            let ks = k.as_slice();
            assert(ks@ =~= seq![114u8, 101, 116, 117, 114, 110]);
            self.check_keyword(length, ks, TokenType::Return)
        } else if first == 116 {
            let k = [116u8, 114, 117, 101];
            let ks = k.as_slice();
            assert(ks@ =~= seq![116u8, 114, 117, 101]);
            self.check_keyword(length, ks, TokenType::True)
        } else if first == 119 {
            let k = [119u8, 104, 105, 108, 101];
            let ks = k.as_slice();
            assert(ks@ =~= seq![119u8, 104, 105, 108, 101]);
            self.check_keyword(length, ks, TokenType::While)
        } else {
            TokenType::Identifier
        }
    }

    fn check_keyword(&self, length: TokenLength, keyword: &[u8], token_type: TokenType) -> (r:
        TokenType)
        requires
            self.position + length <= self.source@.len(),
            self.source@.len() <= u32::MAX,
        ensures
            r == if self.source@.subrange(self.position as int, self.position + length)
                == keyword@ {
                token_type
            } else {
                TokenType::Identifier
            },
    {
        let ghost w = self.source@.subrange(self.position as int, self.position + length);
        if length != keyword.len() {
            proof {
                assert(w.len() != keyword@.len());
            }
            return TokenType::Identifier;
        }
        let mut i: usize = 0;
        while i < length
            invariant
                self.position + length <= self.source@.len(),
                self.source@.len() <= u32::MAX,
                length == keyword@.len(),
                w == self.source@.subrange(self.position as int, self.position + length),
                i <= length,
                forall|j: int| 0 <= j < i ==> self.source@[self.position + j] == keyword@[j],
            decreases length - i,
        {
            if self.source[self.position + i] != keyword[i] {
                proof {
                    assert(w[i as int] != keyword@[i as int]);
                }
                return TokenType::Identifier;
            }
            i = i + 1;
        }
        proof {
            assert(w =~= keyword@);
        }
        token_type
    }

    /// The next token, passing over whitespace that does not start a line;
    /// `None` at the end of the source.
    pub fn next(&mut self) -> (r: Option<Token>)
        requires
            old(self).wf(),
        ensures
            final(self).wf(),
            final(self).bytes() == old(self).bytes(),
            final(self).text() == old(self).text(),
            (r, final(self).state()) == lex_next(old(self).bytes(), old(self).state()),
            final(self).state().position >= old(self).state().position,
            r is None ==> final(self).state().position == final(self).bytes().len(),
            r matches Some(t) ==> t.within(old(self).bytes()) && final(self).state().position
                > old(self).state().position && t.end <= final(self).state().position && t.start
                >= old(self).state().position,
        decreases old(self).bytes().len() - old(self).state().position,
    {
        if self.at_end(self.position) {
            return None;
        }
        let ghost st = self.state();
        let token = self.next_token();
        if token.ttype == TokenType::Whitespace && self.last_type != TokenType::EndOfLine {
            self.next()
        } else {
            proof {
                lemma_lexable_last(self.source@, self.state(), token.ttype);
            }
            self.last_type = token.ttype;
            Some(token)
        }
    }
}

pub proof fn lemma_count_newlines_split(b: Seq<u8>, a: int, m: int, c: int)
    requires
        a <= m <= c,
    ensures
        count_newlines(b, a, c) == count_newlines(b, a, m) + count_newlines(b, m, c),
    decreases m - a,
{
    if a < m {
        lemma_count_newlines_split(b, a + 1, m, c);
    }
}

/// What a token of each kind looks like in the source.
pub open spec fn token_shape(b: Seq<u8>, t: Token) -> bool {
    &&& t.start < t.end <= b.len()
    &&& b[t.start as int] < 128
    &&& t.ttype != TokenType::EndOfFile
    &&& (t.ttype == TokenType::String ==> is_quote(b[t.start as int]))
    &&& (t.ttype == TokenType::FormatStringStart ==> t.end - t.start >= 3 && is_quote(
        b[t.start as int],
    ) && b[t.end - 2] == 36 && b[t.end - 1] == 123)
    &&& (t.ttype == TokenType::FormatStringPart ==> t.end - t.start >= 3 && b[t.start as int]
        == 125 && b[t.end - 2] == 36 && b[t.end - 1] == 123)
    &&& (t.ttype == TokenType::FormatStringEnd ==> b[t.start as int] == 125)
}

/// Every token the tokeniser hands out has the shape of its kind, and only a
/// line's indentation comes out as whitespace.
pub proof fn lemma_lex_next_shape(b: Seq<u8>, st: LexState)
    requires
        lexable(b, st),
        b.len() <= u32::MAX,
        0 <= st.position,
        st.quotes.len() <= st.position,
    ensures
        lex_next(b, st).0 matches Some(t) ==> token_shape(b, t) && (t.ttype
            == TokenType::Whitespace ==> st.last == TokenType::EndOfLine) && t.ttype
            == lex_next(b, st).1.last,
    decreases b.len() - st.position,
{
    if st.position < b.len() {
        let p = st.position;
        let c = b[p];
        lemma_raw_token(b, p, st.quotes);
        let (token, next) = lex_step(b, st);
        if next.position <= st.position || next.position > b.len() {
        } else if token.ttype == TokenType::Whitespace && st.last != TokenType::EndOfLine {
            lemma_lex_next_shape(b, next);
        } else {
            lemma_string_stop(b, p + 1, c);
            if st.quotes.len() > 0 {
                lemma_string_stop(b, p + 1, st.quotes.last());
            }
            assert(token_shape(b, token));
        }
    }
}

/// `lexable` does not depend on the kind of the last token.
pub proof fn lemma_lexable_last(b: Seq<u8>, st: LexState, last: TokenType)
    requires
        lexable(b, st),
    ensures
        lexable(b, LexState { last, ..st }),
    decreases b.len() - st.position,
{
    if 0 <= st.position < b.len() {
        let (token, next) = lex_step(b, st);
        lemma_lexable_last(b, next, last);
        let st2 = LexState { last, ..st };
        let (token2, next2) = lex_step(b, st2);
        assert(next2 == LexState { last, ..next });
    }
}

/// What `lexable` says of the first step.
pub proof fn lemma_lexable_line(b: Seq<u8>, st: LexState)
    requires
        lexable(b, st),
        0 <= st.position < b.len(),
    ensures
        st.line + raw_token(b, st.position, st.quotes).3 <= LineNumber::MAX,
{
}

proof fn lemma_keyword_dispatch(w: Seq<u8>)
    requires
        w.len() >= 1,
    ensures
        keyword_type(w) == if w[0] == 97 && w.len() >= 2 && w[1] == 110 {
            if w == seq![97u8, 110, 100] { TokenType::And } else { TokenType::Identifier }
        } else if w[0] == 97 && w.len() >= 2 && w[1] == 115 {
            if w == seq![97u8, 115] { TokenType::As } else { TokenType::Identifier }
        } else if w[0] == 101 {
            if w == seq![101u8, 108, 115, 101] { TokenType::Else } else { TokenType::Identifier }
        } else if w[0] == 102 && w.len() >= 2 && w[1] == 97 {
            if w == seq![102u8, 97, 108, 115, 101] { TokenType::False } else { TokenType::Identifier }
        } else if w[0] == 102 && w.len() >= 2 && w[1] == 114 {
            if w == seq![102u8, 114, 111, 109] { TokenType::From } else { TokenType::Identifier }
        } else if w[0] == 105 && w.len() >= 2 && w[1] == 102 {
            if w == seq![105u8, 102] { TokenType::If } else { TokenType::Identifier }
        } else if w[0] == 105 && w.len() >= 2 && w[1] == 109 {
            if w == seq![105u8, 109, 112, 111, 114, 116] { TokenType::Import } else { TokenType::Identifier }
        } else if w[0] == 108 {
            if w == seq![108u8, 101, 116] { TokenType::Let } else { TokenType::Identifier }
        } else if w[0] == 110 {
            if w == seq![110u8, 117, 108, 108] { TokenType::Null } else { TokenType::Identifier }
        } else if w[0] == 111 {
            if w == seq![111u8, 114] { TokenType::Or } else { TokenType::Identifier }
        } else if w[0] == 114 {
            if w == seq![114u8, 101, 116, 117, 114, 110] { TokenType::Return } else { TokenType::Identifier }
        } else if w[0] == 116 {
            if w == seq![116u8, 114, 117, 101] { TokenType::True } else { TokenType::Identifier }
        } else if w[0] == 119 {
            if w == seq![119u8, 104, 105, 108, 101] { TokenType::While } else { TokenType::Identifier }
        } else {
            TokenType::Identifier
        },
{
    assert(seq![97u8, 110, 100][0] == 97 && seq![97u8, 110, 100][1] == 110);
    assert(seq![97u8, 115][0] == 97 && seq![97u8, 115][1] == 115);
    assert(seq![101u8, 108, 115, 101][0] == 101);
    assert(seq![102u8, 97, 108, 115, 101][0] == 102 && seq![102u8, 97, 108, 115, 101][1] == 97);
    assert(seq![102u8, 114, 111, 109][0] == 102 && seq![102u8, 114, 111, 109][1] == 114);
    assert(seq![105u8, 102][0] == 105 && seq![105u8, 102][1] == 102);
    assert(seq![105u8, 109, 112, 111, 114, 116][0] == 105 && seq![105u8, 109, 112, 111, 114, 116][1] == 109);
    assert(seq![108u8, 101, 116][0] == 108);
    assert(seq![110u8, 117, 108, 108][0] == 110);
    assert(seq![111u8, 114][0] == 111);
    assert(seq![114u8, 101, 116, 117, 114, 110][0] == 114);
    assert(seq![116u8, 114, 117, 101][0] == 116);
    assert(seq![119u8, 104, 105, 108, 101][0] == 119);
}

fn single_character_token(c: u8) -> (r: TokenType)
    ensures
        r == spec_single_character(c),
{
    match c {
        10 => TokenType::EndOfLine,
        40 => TokenType::LeftParen,
        41 => TokenType::RightParen,
        123 => TokenType::LeftBrace,
        125 => TokenType::RightBrace,
        91 => TokenType::LeftSquare,
        93 => TokenType::RightSquare,
        44 => TokenType::Comma,
        46 => TokenType::Dot,
        43 => TokenType::Plus,
        45 => TokenType::Minus,
        47 => TokenType::Slash,
        42 => TokenType::Star,
        33 => TokenType::Bang,
        61 => TokenType::Equal,
        60 => TokenType::Less,
        62 => TokenType::Greater,
        58 => TokenType::Colon,
        124 => TokenType::Pipe,
        63 => TokenType::Question,
        _ => TokenType::Unknown,
    }
}

// ---------------------------------------------------------------------
// Whether the tokeniser can run over a source
// ---------------------------------------------------------------------

/// The first position at or after `p` that holds neither a digit nor `_`.
fn scan_digits(b: &[u8], p: usize) -> (r: usize)
    requires
        p <= b@.len(),
    ensures
        r == digits_end(b@, p as int),
{
    let mut i = p;
    while i < b.len() && (byte_is_digit(b[i]) || b[i] == 95)
        invariant
            p <= i <= b@.len(),
            digits_end(b@, p as int) == digits_end(b@, i as int),
        decreases b@.len() - i,
    {
        i = i + 1;
    }
    i
}

/// The first position at or after `p` that holds no blank.
fn scan_blanks(b: &[u8], p: usize) -> (r: usize)
    requires
        p <= b@.len(),
    ensures
        r == blank_end(b@, p as int),
{
    let mut i = p;
    while i < b.len() && byte_is_blank(b[i])
        invariant
            p <= i <= b@.len(),
            blank_end(b@, p as int) == blank_end(b@, i as int),
        decreases b@.len() - i,
    {
        i = i + 1;
    }
    i
}

/// The first position at or after `p` that holds a newline, or the end.
fn scan_line(b: &[u8], p: usize) -> (r: usize)
    requires
        p <= b@.len(),
    ensures
        r == line_end(b@, p as int),
{
    let mut i = p;
    while i < b.len() && b[i] != 10
        invariant
            p <= i <= b@.len(),
            line_end(b@, p as int) == line_end(b@, i as int),
        decreases b@.len() - i,
    {
        i = i + 1;
    }
    i
}

/// The first position at or after `p` that holds no letter, digit or `_`.
fn scan_word(b: &[u8], p: usize) -> (r: usize)
    requires
        p <= b@.len(),
    ensures
        r == word_end(b@, p as int),
{
    let mut i = p;
    while i < b.len() && (byte_is_letter(b[i]) || byte_is_digit(b[i]) || b[i] == 95)
        invariant
            p <= i <= b@.len(),
            word_end(b@, p as int) == word_end(b@, i as int),
        decreases b@.len() - i,
    {
        i = i + 1;
    }
    i
}

/// Where a string part that starts at `p` stops, and the newlines before.
fn scan_string_part(b: &[u8], p: usize, quote: u8) -> (r: (usize, usize))
    requires
        p <= b@.len(),
    ensures
        r.0 == string_stop(b@, p as int, quote),
        r.1 == count_newlines(b@, p as int, r.0 as int),
{
    let mut i = p;
    let mut newlines: usize = 0;
    while i < b.len() && b[i] != quote && !(b[i] == 36 && i + 1 < b.len() && b[i + 1] == 123)
        invariant
            p <= i <= b@.len(),
            newlines <= i - p,
            string_stop(b@, p as int, quote) == string_stop(b@, i as int, quote),
            newlines == count_newlines(b@, p as int, i as int),
        decreases b@.len() - i,
    {
        proof {
            lemma_count_newlines_step(b@, p as int, i as int);
        }
        if b[i] == 10 {
            newlines = newlines + 1;
        }
        i = i + 1;
    }
    (i, newlines)
}

fn is_two_character(c: u8, d: u8) -> (r: bool)
    ensures
        r == spec_two_character(c, d) is Some,
{
    (c == 33 && d == 61) || (c == 61 && d == 61) || (c == 60 && d == 61) || (c == 62 && d == 61)
        || (c == 43 && d == 61) || (c == 45 && d == 61) || (c == 42 && d == 61) || (c == 47 && d
        == 61) || (c == 45 && d == 62) || (c == 61 && d == 62) || (c == 38 && d == 38) || (c
        == 124 && d == 124) || (c == 63 && d == 63) || (c == 62 && d == 62) || (c == 46 && d
        == 46) || (c == 58 && d == 58)
}

/// Whether reading the token at `p` would go out of bounds.
fn overruns_at(b: &[u8], p: usize) -> (r: bool)
    requires
        p < b@.len(),
    ensures
        r == raw_overruns(b@, p as int),
{
    let c = b[p];
    let has_next = p + 1 < b.len();
    let number_start = byte_is_digit(c) || (c == 46 && has_next && byte_is_digit(b[p + 1]));
    if (has_next && is_two_character(c, b[p + 1])) || !number_start {
        return false;
    }
    let q = scan_digits(b, p + 1);
    q < b.len() && b[q] == 46 && q + 1 == b.len()
}

/// The length of the token at `p`, the newlines inside it, and whether it
/// ends a line; `quotes` becomes the quotes open after it.
fn token_extent(b: &[u8], p: usize, quotes: &mut Vec<u8>) -> (r: (usize, usize, bool))
    requires
        p < b@.len(),
        old(quotes)@.len() <= p,
        !raw_overruns(b@, p as int),
    ensures
        ({
            let (t, n, qs, newlines) = raw_token(b@, p as int, old(quotes)@);
            &&& r.0 == n
            &&& r.1 == newlines
            &&& final(quotes)@ == qs
            &&& r.2 == (t == TokenType::EndOfLine)
        }),
{
    let ghost qs = quotes@;
    proof {
        lemma_raw_token(b@, p as int, qs);
        lemma_digits_end(b@, p as int + 1);
        lemma_string_stop(b@, p as int + 1, b@[p as int]);
    }
    let c = b[p];
    let has_next = p + 1 < b.len();
    if has_next && is_two_character(c, b[p + 1]) {
        (2, 0, false)
    } else if c == 34 || c == 39 || c == 96 {
        let (q, newlines) = scan_string_part(b, p + 1, c);
        if q >= b.len() {
            (q - p, newlines, false)
        } else if b[q] == c {
            (q + 1 - p, newlines, false)
        } else {
            quotes.push(c);
            (q + 2 - p, newlines, false)
        }
    } else if byte_is_digit(c) || (c == 46 && has_next && byte_is_digit(b[p + 1])) {
        let q = scan_digits(b, p + 1);
        proof {
            lemma_digits_end(b@, q as int);
        }
        let end = if q < b.len() && b[q] == 46 && q + 1 < b.len() && byte_is_digit(b[q + 1]) {
            proof {
                lemma_digits_end(b@, q as int + 1);
            }
            scan_digits(b, q + 1)
        } else {
            scan_digits(b, q)
        };
        (end - p, 0, false)
    } else if byte_is_blank(c) {
        proof {
            lemma_blank_end(b@, p as int);
        }
        (scan_blanks(b, p) - p, 0, false)
    } else if byte_is_letter(c) || c == 95 {
        proof {
            lemma_word_end(b@, p as int + 1);
        }
        (scan_word(b, p + 1) - p, 0, false)
    } else if c == 47 && has_next && b[p + 1] == 47 {
        proof {
            lemma_line_end(b@, p as int + 2);
        }
        (scan_line(b, p + 2) - p, 0, false)
    } else if c == 125 && quotes.len() > 0 {
        let quote = quotes[quotes.len() - 1];
        proof {
            lemma_string_stop(b@, p as int + 1, quote);
        }
        let (q, newlines) = scan_string_part(b, p + 1, quote);
        if q >= b.len() {
            (q - p, newlines, false)
        } else if b[q] == quote {
            quotes.pop();
            (q + 1 - p, newlines, false)
        } else {
            (q + 2 - p, newlines, false)
        }
    } else {
        (1, 0, c == 10)
    }
}

/// Whether the tokeniser can run over the whole source (see
/// `source_lexable`): no token is read past the end or ends inside a
/// character, every byte that starts a token is ASCII, and every line
/// number fits a `LineNumber`.
pub fn is_lexable(source: &str) -> (r: bool)
    ensures
        r == source_lexable(bytes_of(source)),
{
    let b = source.as_bytes();
    if b.len() > 4294967295usize {
        return false;
    }
    let mut p: usize = 0;
    let mut line: usize = 1;
    let mut quotes: Vec<u8> = Vec::new();
    while p < b.len()
        invariant
            b@ == bytes_of(source),
            b@.len() <= u32::MAX,
            p <= b@.len(),
            quotes@.len() <= p,
            1 <= line <= LineNumber::MAX,
            lexable(b@, initial_state()) == lexable(
                b@,
                LexState { position: p as int, line: line as int, quotes: quotes@, last: TokenType::Unknown },
            ),
        decreases b@.len() - p,
    {
        let ghost st = LexState {
            position: p as int,
            line: line as int,
            quotes: quotes@,
            last: TokenType::Unknown,
        };
        proof {
            lemma_raw_token(b@, p as int, quotes@);
        }
        if overruns_at(b, p) || b[p] >= 128 {
            return false;
        }
        let (n, newlines, ends_line) = token_extent(b, p, &mut quotes);
        let end = p + n;
        if end < b.len() && 0x80 <= b[end] && b[end] <= 0xbf {
            return false;
        }
        if newlines > 65535 || line + newlines + (if ends_line { 1usize } else { 0usize }) > 65535 {
            return false;
        }
        line = line + newlines + if ends_line { 1usize } else { 0usize };
        p = end;
        proof {
            let (token, next) = lex_step(b@, st);
            assert(next == LexState { position: p as int, line: line as int, quotes: quotes@, last: TokenType::Unknown });
        }
    }
    true
}

/// Two-character operators are told apart: different spellings are
/// different tokens, and none of them is a token of a single character.
pub proof fn law_two_character_tokens_distinct(c1: u8, d1: u8, c2: u8, d2: u8, e: u8)
    ensures
        spec_two_character(c1, d1) is Some && spec_two_character(c1, d1) == spec_two_character(c2, d2)
            ==> c1 == c2 && d1 == d2,
        spec_two_character(c1, d1) != Some(spec_single_character(e)),
{
}

/// `x op= y` applies the operator `op` that the character before `=` is
/// on its own: `+=` adds, `-=` subtracts, `*=` multiplies and `/=`
/// divides.
pub proof fn law_compound_assignment_tokens(c: u8)
    requires
        c == 43 || c == 45 || c == 42 || c == 47,
    ensures
        spec_two_character(c, 61) matches Some(t) && (t == TokenType::PlusEqual || t
            == TokenType::MinusEqual || t == TokenType::StarEqual || t == TokenType::SlashEqual)
            && crate::syntax::ast::AssignmentOperator::spec_token_to_binary(t)
            == crate::syntax::ast::BinaryOperator::spec_from(spec_single_character(c)),
{
}

/// An operator's spelling tokenises back to that operator: the binary
/// operator of the token read from one of `+ - * / < >`, or from one of
/// `== != <= >= ?? >>`, is written with exactly those characters.
pub proof fn law_operator_spelling(c: u8, d: u8)
    ensures
        (c == 43 || c == 45 || c == 42 || c == 47 || c == 60 || c == 62)
            ==> crate::syntax::ast::BinaryOperator::spec_from(spec_single_character(c)).spec_text()
            == seq![c as char],
        ((c == 61 && d == 61) || (c == 33 && d == 61) || (c == 60 && d == 61) || (c == 62 && d
            == 61) || (c == 63 && d == 63) || (c == 62 && d == 62)) ==> (spec_two_character(c, d)
            matches Some(t) && crate::syntax::ast::BinaryOperator::spec_from(t).spec_text()
            == seq![c as char, d as char]),
{
    reveal_strlit("+");
    reveal_strlit("-");
    reveal_strlit("*");
    reveal_strlit("/");
    reveal_strlit("<");
    reveal_strlit(">");
    reveal_strlit("==");
    reveal_strlit("!=");
    reveal_strlit("<=");
    reveal_strlit(">=");
    reveal_strlit("??");
    reveal_strlit(">>");
    assert("+"@ =~= seq![43u8 as char]);
    assert("-"@ =~= seq![45u8 as char]);
    assert("*"@ =~= seq![42u8 as char]);
    assert("/"@ =~= seq![47u8 as char]);
    assert("<"@ =~= seq![60u8 as char]);
    assert(">"@ =~= seq![62u8 as char]);
    assert("=="@ =~= seq![61u8 as char, 61u8 as char]);
    assert("!="@ =~= seq![33u8 as char, 61u8 as char]);
    assert("<="@ =~= seq![60u8 as char, 61u8 as char]);
    assert(">="@ =~= seq![62u8 as char, 61u8 as char]);
    assert("??"@ =~= seq![63u8 as char, 63u8 as char]);
    assert(">>"@ =~= seq![62u8 as char, 62u8 as char]);
}

} // verus!

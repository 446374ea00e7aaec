use bang::error::Error;
use bang::scanner::{is_scannable, Scanner};
use bang::token::{Token, TokenType};

fn scan(source: &str) -> (Scanner, Vec<Token>) {
    let mut scanner = Scanner::new(source);
    let mut tokens = Vec::new();
    loop {
        let token = scanner.get_token();
        tokens.push(token);
        if token.token_type == TokenType::EndOfFile {
            break;
        }
    }
    (scanner, tokens)
}

fn kinds(tokens: &[Token]) -> Vec<TokenType> {
    tokens.iter().map(|t| t.token_type).collect()
}

#[test]
fn scanner_reads_a_declaration() {
    let (scanner, tokens) = scan("let a = 1");
    assert_eq!(
        kinds(&tokens),
        vec![
            TokenType::Let,
            TokenType::Identifier,
            TokenType::Equal,
            TokenType::Number,
            TokenType::EndOfFile
        ]
    );
    assert_eq!(tokens[0].get_value(&scanner.chars), "let");
    assert_eq!(tokens[1].get_value(&scanner.chars), "a");
    assert_eq!(tokens[3].get_value_from_string("let a = 1"), "1");
    assert_eq!((tokens[4].start, tokens[4].end), (9, 9));
}

#[test]
fn scanner_opens_and_closes_blocks() {
    let (_, tokens) = scan("a\n  b\nc");
    assert_eq!(
        kinds(&tokens),
        vec![
            TokenType::Identifier,
            TokenType::EndOfLine,
            TokenType::BlockStart,
            TokenType::Identifier,
            TokenType::EndOfLine,
            TokenType::BlockEnd,
            TokenType::Identifier,
            TokenType::EndOfFile
        ]
    );
    assert_eq!(tokens[1].line, 1);
    assert_eq!((tokens[1].start, tokens[1].end), (2, 2));
    assert_eq!(tokens[2].line, 2);
    assert_eq!((tokens[2].start, tokens[2].end), (4, 4));
    assert_eq!(tokens[3].line, 2);
    assert_eq!(tokens[5].line, 3);
    assert_eq!(tokens[6].line, 3);
}

#[test]
fn scanner_opens_several_blocks_at_once() {
    let (_, tokens) = scan("a\n    b");
    assert_eq!(
        kinds(&tokens),
        vec![
            TokenType::Identifier,
            TokenType::EndOfLine,
            TokenType::BlockStart,
            TokenType::BlockStart,
            TokenType::Identifier,
            TokenType::EndOfFile
        ]
    );
}

#[test]
fn scanner_counts_tabs_as_two_spaces() {
    let (_, tokens) = scan("a\n\tb");
    assert_eq!(tokens[2].token_type, TokenType::BlockStart);
    assert_eq!(tokens[3].token_type, TokenType::Identifier);
}

#[test]
fn scanner_continues_lines_that_start_with_an_operator() {
    let (_, tokens) = scan("a\n  .b");
    assert_eq!(
        kinds(&tokens),
        vec![
            TokenType::Identifier,
            TokenType::Dot,
            TokenType::Identifier,
            TokenType::EndOfFile
        ]
    );
    assert_eq!(tokens[1].line, 2);
}

#[test]
fn scanner_skips_comments_with_their_newline() {
    let (_, tokens) = scan("// hi\nx");
    assert_eq!(kinds(&tokens), vec![TokenType::Identifier, TokenType::EndOfFile]);
    assert_eq!(tokens[0].line, 2);
    assert_eq!((tokens[0].start, tokens[0].end), (6, 7));
}

#[test]
fn scanner_ends_no_line_after_an_operator() {
    let (_, tokens) = scan("a +\nb");
    assert_eq!(
        kinds(&tokens),
        vec![
            TokenType::Identifier,
            TokenType::Plus,
            TokenType::Identifier,
            TokenType::EndOfFile
        ]
    );
    assert_eq!(tokens[2].line, 2);
}

#[test]
fn scanner_reads_keywords_and_identifiers() {
    let (_, tokens) = scan("fun fa f and else false if null or return true while");
    assert_eq!(
        kinds(&tokens),
        vec![
            TokenType::Fun,
            TokenType::Identifier,
            TokenType::Identifier,
            TokenType::And,
            TokenType::Else,
            TokenType::False,
            TokenType::If,
            TokenType::Null,
            TokenType::Or,
            TokenType::Return,
            TokenType::True,
            TokenType::While,
            TokenType::EndOfFile
        ]
    );
}

#[test]
fn scanner_reads_numbers() {
    let (_, tokens) = scan("1_000.5 .5 3.x");
    assert_eq!(
        kinds(&tokens),
        vec![
            TokenType::Number,
            TokenType::Number,
            TokenType::Number,
            TokenType::Dot,
            TokenType::Identifier,
            TokenType::EndOfFile
        ]
    );
    assert_eq!((tokens[0].start, tokens[0].end), (0, 7));
    assert_eq!((tokens[1].start, tokens[1].end), (8, 10));
    assert_eq!((tokens[2].start, tokens[2].end), (11, 12));
}

#[test]
fn scanner_reads_two_character_operators() {
    let (_, tokens) = scan("-> != == <= >= && || += -= *= /= ??");
    assert_eq!(
        kinds(&tokens),
        vec![
            TokenType::RightArrow,
            TokenType::BangEqual,
            TokenType::EqualEqual,
            TokenType::LessEqual,
            TokenType::GreaterEqual,
            TokenType::And,
            TokenType::Or,
            TokenType::PlusEqual,
            TokenType::MinusEqual,
            TokenType::StarEqual,
            TokenType::SlashEqual,
            TokenType::QuestionQuestion,
            TokenType::EndOfFile
        ]
    );
}

#[test]
fn scanner_reads_strings() {
    let (_, tokens) = scan("'a' \"b\" `c\nd`");
    assert_eq!(
        kinds(&tokens),
        vec![
            TokenType::String,
            TokenType::String,
            TokenType::String,
            TokenType::EndOfFile
        ]
    );
    assert_eq!(tokens[2].line, 2);
    assert_eq!((tokens[2].start, tokens[2].end), (8, 13));
}

#[test]
fn scanner_reports_unterminated_strings() {
    let (_, tokens) = scan("'abc");
    assert_eq!(tokens[0].token_type, TokenType::Error);
    assert_eq!(tokens[0].error_value, Some(Error::UnterminatedString));
    assert_eq!((tokens[0].start, tokens[0].end), (0, 4));

    let (_, tokens) = scan("'ab\nc'");
    assert_eq!(tokens[0].token_type, TokenType::Error);
    assert_eq!(tokens[0].error_value, Some(Error::UnterminatedString));
    assert_eq!((tokens[0].start, tokens[0].end), (0, 3));
}

#[test]
fn scanner_reports_unknown_characters() {
    let (_, tokens) = scan("#");
    assert_eq!(tokens[0].token_type, TokenType::Error);
    assert_eq!(tokens[0].error_value, Some(Error::UnknownCharacter));
    assert_eq!((tokens[0].start, tokens[0].end), (0, 1));
    assert_eq!(tokens[1].token_type, TokenType::EndOfFile);
}

#[test]
fn scanner_checks_what_it_can_read() {
    let ok: Vec<char> = "a\n  b".chars().collect();
    assert!(is_scannable(&ok));
    let deep: String = format!("a\n{}b", " ".repeat(300));
    let deep: Vec<char> = deep.chars().collect();
    assert!(!is_scannable(&deep));
    let long: String = "\n".repeat(70000);
    let long: Vec<char> = long.chars().collect();
    assert!(!is_scannable(&long));
}

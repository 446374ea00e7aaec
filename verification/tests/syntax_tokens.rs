use bang::syntax::tokens::is_lexable;
use bang::syntax::tokens::{Token, TokenType, Tokeniser};

fn tokenize(source: &str) -> Vec<Token> {
    let mut tokeniser = Tokeniser::new(source);
    let mut tokens = Vec::new();
    while let Some(token) = tokeniser.next() {
        tokens.push(token);
    }
    tokens
}

#[test]
fn should_tokenize_format_strings() {
    let tokens = tokenize("'${}'");
    assert_eq!(tokens.len(), 2);
    assert_eq!(tokens[0].ttype, TokenType::FormatStringStart);
    assert_eq!(tokens[1].ttype, TokenType::FormatStringEnd);

    let tokens = tokenize("'a ${}'");
    assert_eq!(tokens.len(), 2);
    assert_eq!(tokens[0].ttype, TokenType::FormatStringStart);
    assert_eq!(tokens[1].ttype, TokenType::FormatStringEnd);

    let tokens = tokenize("'a ${3}'");
    assert_eq!(tokens.len(), 3);
    assert_eq!(tokens[0].ttype, TokenType::FormatStringStart);
    assert_eq!(tokens[1].ttype, TokenType::Number);
    assert_eq!(tokens[2].ttype, TokenType::FormatStringEnd);

    let tokens = tokenize("'a ${1} b ${false} c'");
    assert_eq!(tokens.len(), 5);
    assert_eq!(tokens[0].ttype, TokenType::FormatStringStart);
    assert_eq!(tokens[1].ttype, TokenType::Number);
    assert_eq!(tokens[2].ttype, TokenType::FormatStringPart);
    assert_eq!(tokens[3].ttype, TokenType::False);
    assert_eq!(tokens[4].ttype, TokenType::FormatStringEnd);
    assert_eq!(tokens[0].len(), 5);
    assert_eq!(tokens[1].len(), 1);
    assert_eq!(tokens[2].len(), 6);
    assert_eq!(tokens[3].len(), 5);
    assert_eq!(tokens[4].len(), 4);
}

#[test]
fn tokeniser_reads_plain_sources() {
    assert!(is_lexable(""));
    assert!(is_lexable("let a = 1.5\nprint(a)\n"));
    assert!(is_lexable("'multi\nline ${a} string'"));
    assert!(is_lexable("a."));
    assert!(is_lexable("'é'"));
}

#[test]
fn tokeniser_refuses_what_it_cannot_read() {
    // A number followed by a dot at the very end is read past the end.
    assert!(!is_lexable("1."));
    assert!(!is_lexable("let a = 12."));
    // A token cannot start with a byte outside ASCII.
    assert!(!is_lexable("é"));
    assert!(!is_lexable("a é"));
}

#[test]
fn syntax_tokens_have_none_for_empty_string() {
    let tokens = tokenize("");

    assert_eq!(tokens.len(), 0);
}

#[test]
fn syntax_tokens_single_character() {
    let tokens = tokenize("(");
    assert_eq!(tokens.len(), 1);
    assert_eq!(tokens[0].ttype, TokenType::LeftParen);

    let tokens = tokenize(".");
    assert_eq!(tokens.len(), 1);
    assert_eq!(tokens[0].ttype, TokenType::Dot);

    let tokens = tokenize("+");
    assert_eq!(tokens.len(), 1);
    assert_eq!(tokens[0].ttype, TokenType::Plus);
}

#[test]
fn syntax_tokens_whitespace() {
    let tokens = tokenize(" ");
    assert_eq!(tokens.len(), 0);

    let tokens = tokenize("\t");
    assert_eq!(tokens.len(), 0);

    let tokens = tokenize("\r");
    assert_eq!(tokens.len(), 0);

    let tokens = tokenize(" \r \t ");
    assert_eq!(tokens.len(), 0);

    let tokens = tokenize("\n ");
    assert_eq!(tokens.len(), 2);
    assert_eq!(tokens[0].ttype, TokenType::EndOfLine);
    assert_eq!(tokens[0].line, 1);
    assert_eq!(tokens[1].ttype, TokenType::Whitespace);
    assert_eq!(tokens[1].line, 2);
}

#[test]
fn syntax_tokens_strings() {
    let tokens = tokenize("'hello'");
    assert_eq!(tokens.len(), 1);
    assert!(matches!(
        tokens[0],
        Token { ttype: TokenType::String, start: 0, end: 7, line: 1 }
    ));

    let tokens = tokenize("`world`");
    assert_eq!(tokens[0].ttype, TokenType::String);
    assert_eq!(tokens.len(), 1);

    let tokens = tokenize("\"What's Up\"");
    assert_eq!(tokens[0].ttype, TokenType::String);
    assert_eq!(tokens.len(), 1);

    let tokens = tokenize("\"\n        What's\n        Up\"");
    assert_eq!(tokens[0].ttype, TokenType::String);
    assert_eq!(tokens.len(), 1);

    let tokens = tokenize("'hello' `world`");
    assert_eq!(tokens.len(), 2);
}

#[test]
fn syntax_tokens_numbers() {
    let tokens = tokenize("752");
    assert_eq!(tokens.len(), 1);
    assert!(matches!(
        tokens[0],
        Token { ttype: TokenType::Number, start: 0, end: 3, line: 1 }
    ));

    let tokens = tokenize("1.5");
    assert_eq!(tokens[0].ttype, TokenType::Number);
    assert_eq!(tokens.len(), 1);

    let tokens = tokenize(".75");
    assert_eq!(tokens[0].ttype, TokenType::Number);
    assert_eq!(tokens.len(), 1);

    let tokens = tokenize("32_175.45");
    assert_eq!(tokens[0].ttype, TokenType::Number);
    assert_eq!(tokens.len(), 1);

    let tokens = tokenize("32_175.4__5");
    assert_eq!(tokens[0].ttype, TokenType::Number);
    assert_eq!(tokens.len(), 1);
}

#[test]
fn syntax_tokens_keywords() {
    let tokens = tokenize("and else false if let null or return true while");
    assert_eq!(tokens.len(), 10);
    assert_eq!(tokens[0].ttype, TokenType::And);
    assert_eq!(tokens[1].ttype, TokenType::Else);
    assert_eq!(tokens[2].ttype, TokenType::False);
    assert_eq!(tokens[3].ttype, TokenType::If);
    assert_eq!(tokens[4].ttype, TokenType::Let);
    assert_eq!(tokens[5].ttype, TokenType::Null);
    assert_eq!(tokens[6].ttype, TokenType::Or);
    assert_eq!(tokens[7].ttype, TokenType::Return);
    assert_eq!(tokens[8].ttype, TokenType::True);
    assert_eq!(tokens[9].ttype, TokenType::While);
}

#[test]
fn syntax_tokens_identifiers() {
    for source in ["hello", "_hello", "hello_", "_hello_", "hello_world", "hello_3"] {
        let tokens = tokenize(source);
        assert_eq!(tokens.len(), 1);
        assert_eq!(tokens[0].ttype, TokenType::Identifier);
    }

    let tokens = tokenize("3hello");
    assert_eq!(tokens.len(), 2);
}

#[test]
fn syntax_tokens_unknown_characters() {
    let tokens = tokenize("#");
    assert_eq!(tokens[0].ttype, TokenType::Unknown);

    let tokens = tokenize("&");
    assert_eq!(tokens[0].ttype, TokenType::Unknown);
}

#[test]
fn syntax_token_text_of_an_empty_range_inside_a_character_is_empty() {
    let source = "é";
    let token = Token { ttype: TokenType::Identifier, start: 1, end: 1, line: 1 };
    assert_eq!(token.get_value(source), "");
    let whole = Token { ttype: TokenType::Identifier, start: 0, end: 2, line: 1 };
    assert_eq!(whole.get_value(source), "é");
}

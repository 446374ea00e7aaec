use bang::tokens::{tokenize, Token, TokenType};

#[test]
fn tokens_should_have_no_tokens_for_empty_string() {
  let tokens = tokenize("");

  assert_eq!(tokens.len(), 0);
}

#[test]
fn tokens_should_tokenize_single_character() {
  let tokens = tokenize("(");
  assert_eq!(tokens.len(), 1);
  assert_eq!(tokens[0].ttype, TokenType::LeftParen);

  let tokens = tokenize(".");
  assert_eq!(tokens.len(), 1);
  assert_eq!(tokens[0].ttype, TokenType::Dot);

  let tokens = tokenize("+");
  assert_eq!(tokens.len(), 1);
  assert_eq!(tokens[0].ttype, TokenType::Plus);
}

#[test]
fn tokens_should_tokenize_whitespace() {
  let tokens = tokenize(" ");
  assert_eq!(tokens.len(), 1);
  assert_eq!(tokens[0].ttype, TokenType::Whitespace);

  let tokens = tokenize("\t");
  assert_eq!(tokens.len(), 1);
  assert_eq!(tokens[0].ttype, TokenType::Whitespace);

  let tokens = tokenize("\r");
  assert_eq!(tokens.len(), 1);
  assert_eq!(tokens[0].ttype, TokenType::Whitespace);

  let tokens = tokenize(" \r \t ");
  assert_eq!(tokens.len(), 1);
  assert_eq!(tokens[0].ttype, TokenType::Whitespace);

  let tokens = tokenize("\n ");
  assert_eq!(tokens.len(), 2);
  assert_eq!(tokens[0].ttype, TokenType::EndOfLine);
  assert_eq!(tokens[0].line, 1);
  assert_eq!(tokens[1].ttype, TokenType::Whitespace);
  assert_eq!(tokens[1].line, 2);
}

#[test]
fn tokens_should_tokenize_strings() {
  let tokens = tokenize("'hello'");
  assert_eq!(tokens.len(), 1);
  assert!(matches!(
    tokens[0],
    Token {
      ttype: TokenType::String,
      start: 0,
      end: 7,
      line: 1,
      column: 0,
      value: "'hello'"
    }
  ));

  let tokens = tokenize("`world`");
  assert_eq!(tokens.len(), 1);
  assert_eq!(tokens[0].ttype, TokenType::String);
  assert_eq!(tokens[0].value, "`world`");

  let tokens = tokenize("\"What's Up\"");
  assert_eq!(tokens[0].value, "\"What's Up\"");

  let tokens = tokenize("\"\n        What's\n        Up\"");
  assert_eq!(tokens[0].value, "\"\n        What's\n        Up\"");

  let tokens = tokenize("'hello' `world`");
  assert_eq!(tokens.len(), 3);
}

#[test]
fn tokens_should_tokenize_numbers() {
  let tokens = tokenize("752");
  assert_eq!(tokens.len(), 1);
  assert!(matches!(
    tokens[0],
    Token {
      ttype: TokenType::Number,
      start: 0,
      end: 3,
      line: 1,
      column: 0,
      value: "752"
    }
  ));

  let tokens = tokenize("1.5");
  assert_eq!(tokens[0].ttype, TokenType::Number);
  assert_eq!(tokens[0].value, "1.5");

  let tokens = tokenize(".75");
  assert_eq!(tokens[0].ttype, TokenType::Number);
  assert_eq!(tokens[0].value, ".75");

  let tokens = tokenize("32_175.45");
  assert_eq!(tokens[0].ttype, TokenType::Number);
  assert_eq!(tokens[0].value, "32_175.45");

  let tokens = tokenize("32_175.4__5");
  assert_eq!(tokens[0].ttype, TokenType::Number);
  assert_eq!(tokens[0].value, "32_175.4__5");
}

#[test]
fn tokens_should_tokenize_keywords() {
  let tokens = tokenize("and else false fun if let null or return true while");
  assert_eq!(tokens.len(), 21);
  assert_eq!(tokens[0].ttype, TokenType::And);
  assert_eq!(tokens[2].ttype, TokenType::Else);
  assert_eq!(tokens[4].ttype, TokenType::False);
  assert_eq!(tokens[6].ttype, TokenType::Fun);
  assert_eq!(tokens[8].ttype, TokenType::If);
  assert_eq!(tokens[10].ttype, TokenType::Let);
  assert_eq!(tokens[12].ttype, TokenType::Null);
  assert_eq!(tokens[14].ttype, TokenType::Or);
  assert_eq!(tokens[16].ttype, TokenType::Return);
  assert_eq!(tokens[18].ttype, TokenType::True);
  assert_eq!(tokens[20].ttype, TokenType::While);
}

#[test]
fn tokens_should_tokenize_identifiers() {
  let tokens = tokenize("hello");
  assert_eq!(tokens.len(), 1);
  assert_eq!(tokens[0].ttype, TokenType::Identifier);
  assert_eq!(tokens[0].value, "hello");

  let tokens = tokenize("_hello");
  assert_eq!(tokens.len(), 1);
  assert_eq!(tokens[0].ttype, TokenType::Identifier);
  assert_eq!(tokens[0].value, "_hello");

  let tokens = tokenize("hello_");
  assert_eq!(tokens.len(), 1);
  assert_eq!(tokens[0].ttype, TokenType::Identifier);
  assert_eq!(tokens[0].value, "hello_");

  let tokens = tokenize("_hello_");
  assert_eq!(tokens.len(), 1);
  assert_eq!(tokens[0].ttype, TokenType::Identifier);
  assert_eq!(tokens[0].value, "_hello_");

  let tokens = tokenize("hello_world");
  assert_eq!(tokens.len(), 1);
  assert_eq!(tokens[0].ttype, TokenType::Identifier);
  assert_eq!(tokens[0].value, "hello_world");
}

#[test]
fn tokens_should_tokenize_unknown_characters() {
  let tokens = tokenize("?");
  assert_eq!(tokens[0].ttype, TokenType::Unknown);

  let tokens = tokenize("#");
  assert_eq!(tokens[0].ttype, TokenType::Unknown);

  let tokens = tokenize("&");
  assert_eq!(tokens[0].ttype, TokenType::Unknown);
}

#[test]
fn tokens_checks_what_it_can_read() {
    assert!(bang::tokens::is_tokenizable("let a = 1\n"));
    assert!(bang::tokens::is_tokenizable(""));
    assert!(!bang::tokens::is_tokenizable("f"));
    assert!(!bang::tokens::is_tokenizable("1."));
    assert!(bang::tokens::is_tokenizable("1.5"));
}

#[test]
fn tokens_cover_the_source_without_gaps() {
    let source = "let a = 'b' // c\n  d";
    let tokens = tokenize(source);
    assert_eq!(tokens[0].start, 0);
    for pair in tokens.windows(2) {
        assert_eq!(pair[0].end, pair[1].start);
    }
    assert_eq!(tokens[tokens.len() - 1].end, source.len());
    let joined: String = tokens.iter().map(|t| t.value).collect();
    assert_eq!(joined, source);
}

#[test]
fn tokens_are_listed_one_to_a_line() {
    let tokens = tokenize("let a\nb\n");
    assert_eq!(
        bang::print::tokens(&tokens),
        "     ╭─[Tokens]\n\
         \x20  1 │ Let (let)\n\
         \x20    │ Whitespace ( )\n\
         \x20    │ Identifier (a)\n\
         \x20    │ EndOfLine ()\n\
         \x20  2 │ Identifier (b)\n\
         \x20    │ EndOfLine ()\n\
         ─────╯\n"
    );
}

use bang::error::{get_message, Error};
use bang::print::{bold, red, yellow};
use bang::token::{Token, TokenType};

fn token(start: usize, end: usize) -> Token {
    Token {
        token_type: TokenType::Error,
        line: 1,
        start,
        end,
        error_value: None,
    }
}

#[test]
fn error_messages_quote_the_token() {
    let source: Vec<char> = "let a = #".chars().collect();
    let diagnostic = get_message(&source, &Error::UnknownCharacter, &token(8, 9));
    assert_eq!(diagnostic.message, "Unknown Character '#'");
    assert!(diagnostic.note.is_none());

    let diagnostic = get_message(&source, &Error::VariableAlreadyExists, &token(4, 5));
    assert_eq!(diagnostic.message, "Redefining Exisiting Variable 'a'");
}

#[test]
fn error_messages_without_the_token() {
    let source: Vec<char> = "a".chars().collect();
    let diagnostic = get_message(&source, &Error::ExpectedExpression, &token(0, 1));
    assert_eq!(diagnostic.message, "Expected Expression");
    assert!(diagnostic.note.is_none());
}

#[test]
fn error_messages_with_a_note() {
    let source: Vec<char> = "a".chars().collect();
    let diagnostic = get_message(&source, &Error::TooBigJump, &token(0, 1));
    assert_eq!(diagnostic.message, "Jump Too Large");
    assert_eq!(
        diagnostic.note.as_deref(),
        Some("This is likely to be an issue with the compiler")
    );
}

#[test]
fn colours_wrap_the_text() {
    assert_eq!(red("Error:"), "\u{001b}[31mError:\u{001b}[0m");
    assert_eq!(yellow("Warning:"), "\u{001b}[33mWarning:\u{001b}[0m");
    assert_eq!(bold("title"), "\u{001b}[1mtitle\u{001b}[0m");
    assert_eq!(bold(""), "\u{001b}[1m\u{001b}[0m");
}

#[test]
fn code_frames_show_the_lines_around_a_line() {
    let source = "a\nb\nc\nd\ne\n";
    assert_eq!(
        bang::print::code_frame("f.bang", source, 3),
        "    ╭─[f.bang]\n\
         \x20   ·\n\
         \x20 2 │ b\n\
         \x20 3 │ c\n\
         \x20 4 │ d\n\
         \x20   ·\n\
         ────╯\n"
    );
    assert_eq!(
        bang::print::code_frame("f.bang", "x\r\ny", 1),
        "    ╭─[f.bang]\n\
         \x20   │\n\
         \x20 1 │ x\n\
         \x20 2 │ y\n\
         ────╯\n"
    );
}

#[test]
fn errors_and_warnings_are_reported_with_frames() {
    let diagnostic = bang::diagnostic::Diagnostic {
        title: "Oops".to_string(),
        message: "It broke".to_string(),
        lines: vec![0],
    };
    let text = bang::print::error("f.bang", "a\nb\n", &diagnostic);
    assert_eq!(
        text,
        "\u{001b}[1m\u{001b}[31mError:\u{001b}[0m\u{001b}[0m \u{001b}[1mOops\u{001b}[0m\n\
         It broke\n\n\
         \x20   ╭─[f.bang]\n\
         \x20   │\n\
         \x20 1 │ a\n\
         \x20   ·\n\
         ────╯\n"
    );
    let text = bang::print::warning("f.bang", "a\n", &diagnostic);
    assert!(text.starts_with("\u{001b}[1m\u{001b}[33mWarning:\u{001b}[0m\u{001b}[0m "));
}

//! Tokens of source texts.
use yatsuscript::lexer::lex;
use yatsuscript::lexer::number_literals;
use yatsuscript::lexer::Lexeme;
use yatsuscript::lexer::LexingError;
use yatsuscript::lexer::Token;

fn tokens(source: &str) -> Vec<Token> {
    lex(source)
        .into_iter()
        .map(|l: Lexeme| l.token.expect("a token"))
        .collect()
}

fn error(source: &str) -> String {
    lex(source)
        .into_iter()
        .find_map(|l| l.token.err())
        .expect("an error")
        .to_debug_text()
}

#[test]
fn keywords_are_told_from_names() {
    assert_eq!(
        tokens("mut let fn return continue if else spawn for while in true false letter"),
        [
            Token::MutableVar,
            Token::ImmutableVar,
            Token::Fn,
            Token::Return,
            Token::Continue,
            Token::If,
            Token::Else,
            Token::Spawn,
            Token::For,
            Token::While,
            Token::In,
            Token::Bool(true),
            Token::Bool(false),
            Token::Identifier,
        ]
    );
}

#[test]
fn signs_are_taken_as_long_as_possible() {
    assert_eq!(
        tokens(": .. . { } ( ) [ ] , + - * / == != < <= > >= !"),
        [
            Token::Colon,
            Token::Range,
            Token::Dot,
            Token::LBrace,
            Token::RBrace,
            Token::LParen,
            Token::RParen,
            Token::LBracket,
            Token::RBracket,
            Token::Comma,
            Token::Plus,
            Token::Minus,
            Token::Mul,
            Token::Div,
            Token::Eq,
            Token::Ne,
            Token::Lt,
            Token::Le,
            Token::Gt,
            Token::Ge,
            Token::Not,
        ]
    );
}

#[test]
fn comments_and_line_breaks() {
    assert_eq!(
        tokens("a // to the end\nb /* gone\n */ c"),
        [
            Token::Identifier,
            Token::LineComment,
            Token::Newline,
            Token::Identifier,
            Token::Identifier,
        ]
    );
}

#[test]
fn texts_of_lexemes_are_those_of_the_source() {
    let source = "name: \"a\\\"b\" `t` 1_000.5e-3 \u{e9}";
    let found: Vec<(String, usize, usize)> = lex(source)
        .into_iter()
        .map(|l| (l.text, l.start, l.end))
        .collect();
    assert_eq!(
        found,
        [
            ("name".to_string(), 0, 4),
            (":".to_string(), 4, 5),
            ("a\\\"b".to_string(), 6, 12),
            ("t".to_string(), 13, 16),
            ("1_000.5e-3".to_string(), 17, 27),
            ("\u{e9}".to_string(), 28, 30),
        ]
    );
}

#[test]
fn lexemes_stand_in_order() {
    let source = "fn f(a) {\n  return a + 1 // one\n}\nprint(f(2))";
    let found = lex(source);
    for pair in found.windows(2) {
        assert!(pair[0].start < pair[0].end);
        assert!(pair[0].end <= pair[1].start);
    }
    assert!(found.last().unwrap().end <= source.len());
}

#[test]
fn numbers_of_a_source() {
    assert_eq!(
        number_literals("let a: 1_000 + 2.5\nlet b: -3 - 1e3\n\"4\" // 5"),
        ["1000", "2.5", "-3", "1e3"]
    );
}

#[test]
fn a_minus_before_a_digit_belongs_to_the_number() {
    assert_eq!(tokens("a -1"), [Token::Identifier, Token::Number]);
    assert_eq!(tokens("a - 1"), [Token::Identifier, Token::Minus, Token::Number]);
}

#[test]
fn what_is_no_token_is_an_error() {
    assert_eq!(error("a = b"), "NonAsciiCharacter('=')");
    assert_eq!(error("\u{e9}"), "NonAsciiCharacter('\u{e9}')");
    assert_eq!(error("\"open"), "NonAsciiCharacter('\"')");
    assert_eq!(error("`open"), "NonAsciiCharacter('`')");
    assert_eq!(error("1\u{661}"), "InvalidFloat(\"float parse error\")");
}

#[test]
fn errors_have_messages() {
    assert_eq!(
        LexingError::NonAsciiCharacter('\u{e9}').to_text(),
        "Non-ASCII character: \u{e9}"
    );
    assert_eq!(LexingError::from_integer(true).to_text(), "Invalid integer: overflow error");
    assert_eq!(LexingError::from_integer(false).to_text(), "Invalid integer: other error");
    assert_eq!(LexingError::from_float().to_text(), "Invalid float: float parse error");
    assert_eq!(LexingError::default().to_text(), "Unknown lexing error");
    assert_eq!(LexingError::default().to_debug_text(), "Other");
    assert_eq!(
        LexingError::InvalidInteger("a\"b".to_string()).to_debug_text(),
        "InvalidInteger(\"a\\\"b\")"
    );
}

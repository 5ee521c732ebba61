use rusty_json::error::{JsonError, LexError, ParseError};
use rusty_json::lexer::tokenize;
use rusty_json::messages::token_debug_text;
use rusty_json::position::Position;
use rusty_json::token::Token;

fn s(x: &str) -> String {
    x.to_string()
}

fn at(row: i32, column: i32) -> Position {
    Position { row, column }
}

#[test]
fn unexpected_character_message_names_line_and_column() {
    let e = tokenize(s("[\n  x]")).unwrap_err();
    assert_eq!(e.to_string(), "Unexpected character: 'x' at position 2:3");
}

#[test]
fn token_text_in_messages_is_its_debug_text() {
    let tokens = vec![
        Token::BraceCurlyOpen,
        Token::BraceCurlyClose,
        Token::BracketSquareOpen,
        Token::BracketSquareClose,
        Token::Comma,
        Token::Colon,
        Token::String(s("plain")),
        Token::String(s("quote \" back \\ line\n tab\t \u{1} é")),
        Token::Number(s("-1.5e3")),
        Token::True,
        Token::False,
        Token::Null,
    ];
    for t in tokens.iter() {
        assert_eq!(token_debug_text(t), format!("{:?}", t));
    }
}

#[test]
fn every_lex_error_has_its_message() {
    let cases = vec![
        (LexError::UnexpectedCharacter { found: '@', at: at(1, 2) }, "Unexpected character: '@' at position 1:2"),
        (LexError::UnexpectedValue { after: Token::Number(s("1")) }, "Unexpected value after Number(\"1\")"),
        (LexError::UnexpectedValue { after: Token::True }, "Unexpected value after True"),
        (LexError::TrailingComma, "Unexpected token after comma (trailing comma?)"),
        (LexError::UnterminatedString { at: at(3, 10) }, "Unterminated string literal at position 3:10"),
        (LexError::UnterminatedEscape { at: at(1, 7) }, "Unterminated escape sequence at position 1:7"),
        (LexError::InvalidEscape { found: 'q', at: at(1, 4) }, "Invalid escape sequence '\\q' at position 1:4"),
        (LexError::InvalidUnicodeEscape { at: at(2, 1) }, "Invalid unicode escape sequence at position 2:1"),
        (LexError::IncompleteUnicodeEscape { at: at(1, 9) }, "Incomplete unicode escape sequence at position 1:9"),
        (LexError::InvalidCodePoint { at: at(1, 12) }, "Invalid unicode code point at position 1:12"),
        (LexError::UnescapedControl { at: at(4, 5) }, "Unescaped control character in string at position 4:5"),
        (LexError::UnescapedControlCode { code: 1, at: at(1, 3) }, "Unescaped control character (0x01) in string at position 1:3"),
        (LexError::UnescapedControlCode { code: 0x7f, at: at(1, 3) }, "Unescaped control character (0x7f) in string at position 1:3"),
        (LexError::UnescapedControlCode { code: 0x1234, at: at(1, 3) }, "Unescaped control character (0x1234) in string at position 1:3"),
        (LexError::UnknownKeyword { word: s("nul"), at: at(1, 5) }, "Unknown keyword: 'nul' at position 1:5"),
        (LexError::LeadingZeros { at: at(1, 3) }, "Invalid number: leading zeros not allowed at position 1:3"),
        (LexError::InvalidNumber { text: s("1e") }, "Invalid number format: '1e'"),
    ];
    for (e, text) in cases.into_iter() {
        assert_eq!(e.to_string(), text);
        assert_eq!(JsonError::Tokenize(e).to_string(), text);
    }
}

#[test]
fn every_parse_error_has_its_message() {
    let cases = vec![
        (ParseError::TooDeep { depth: 20 }, "Detected nesting level 20, max allowed 19"),
        (ParseError::ExpectedKeyOrClose, "Expected string key or '}' in object"),
        (ParseError::ExpectedColon, "Expected ':' after object key"),
        (ParseError::ExpectedCommaOrBrace, "Expected ',' or '}' in object"),
        (ParseError::ExpectedCommaOrBracket, "Expected ',' or ']' in array"),
        (ParseError::UnexpectedEndInArray, "Unexpected end of tokens in array"),
        (ParseError::UnexpectedEnd, "Unexpected end of tokens"),
        (ParseError::UnknownToken, "Unknown Token detected"),
        (ParseError::NotContainer, "JSON must be an object or array, not a primitive value"),
        (ParseError::EmptyInput, "Empty JSON input"),
        (ParseError::ExtraToken { token: Token::String(s("a\"b")) }, "Unexpected token after root value: String(\"a\\\"b\")"),
        (ParseError::ExtraToken { token: Token::Comma }, "Unexpected token after root value: Comma"),
    ];
    for (e, text) in cases.into_iter() {
        assert_eq!(e.to_string(), text);
        assert_eq!(JsonError::Parse(e).to_string(), text);
    }
}

use rusty_json::error::LexError;
use rusty_json::chars::{is_control, is_whitespace, mark_letters};
use rusty_json::lexer::{tokenize, tokenize_chars};
use rusty_json::position::Position;
use rusty_json::token::Token;

fn tok(s: &str) -> Result<Vec<Token>, LexError> {
    tokenize(s.to_string())
}

fn text(s: &str) -> String {
    s.to_string()
}

fn at(row: i32, column: i32) -> Position {
    Position { row, column }
}

#[test]
fn tokenizes_structure_and_scalars() {
    let tokens = tok("{\"a\": [1, -2.5e3, true, false, null]}").unwrap();
    assert_eq!(
        tokens,
        vec![
            Token::BraceCurlyOpen,
            Token::String(text("a")),
            Token::Colon,
            Token::BracketSquareOpen,
            Token::Number(text("1")),
            Token::Comma,
            Token::Number(text("-2.5e3")),
            Token::Comma,
            Token::True,
            Token::Comma,
            Token::False,
            Token::Comma,
            Token::Null,
            Token::BracketSquareClose,
            Token::BraceCurlyClose,
        ]
    );
}

#[test]
fn empty_and_blank_input_give_no_tokens() {
    assert_eq!(tok("").unwrap(), vec![]);
    assert_eq!(tok(" \n\t\r ").unwrap(), vec![]);
}

#[test]
fn unicode_white_space_is_skipped() {
    // U+00A0 NO-BREAK SPACE and U+3000 IDEOGRAPHIC SPACE have the White_Space property.
    assert_eq!(
        tok("[\u{a0}1\u{3000}]").unwrap(),
        vec![Token::BracketSquareOpen, Token::Number(text("1")), Token::BracketSquareClose]
    );
}

#[test]
fn string_escapes_are_resolved() {
    let tokens = tok(r#"["q\"b\\s\/b\bf\fn\nr\rt\tu\u00e9\u0041"]"#).unwrap();
    assert_eq!(
        tokens[1],
        Token::String(text("q\"b\\s/b\u{8}f\u{c}n\nr\rt\tu\u{e9}A"))
    );
}

#[test]
fn non_ascii_text_is_kept() {
    let tokens = tok("[\"héllo wörld ✓\"]").unwrap();
    assert_eq!(tokens[1], Token::String(text("héllo wörld ✓")));
}

#[test]
fn number_text_is_kept_as_written() {
    let tokens = tok("[0, -0, 10, 0.5, 1E5, 1e+5, 1e-5, 1., -.5, 00]").unwrap();
    let numbers: Vec<Token> = tokens
        .into_iter()
        .filter(|t| matches!(t, Token::Number(_)))
        .collect();
    let expected: Vec<Token> = ["0", "-0", "10", "0.5", "1E5", "1e+5", "1e-5", "1.", "-.5", "00"]
        .iter()
        .map(|s| Token::Number(text(s)))
        .collect();
    assert_eq!(numbers, expected);
}

#[test]
fn unexpected_character() {
    assert_eq!(
        tok("[1] x"),
        Err(LexError::UnexpectedCharacter { found: 'x', at: at(1, 5) })
    );
    assert_eq!(
        tok("[\n@"),
        Err(LexError::UnexpectedCharacter { found: '@', at: at(2, 1) })
    );
    assert_eq!(
        tok("[.5]"),
        Err(LexError::UnexpectedCharacter { found: '.', at: at(1, 2) })
    );
}

#[test]
fn value_after_value() {
    assert_eq!(
        tok("[1 2]"),
        Err(LexError::UnexpectedValue { after: Token::Number(text("1")) })
    );
    assert_eq!(
        tok("{\"a\" \"b\"}"),
        Err(LexError::UnexpectedValue { after: Token::String(text("a")) })
    );
    assert_eq!(
        tok("[] true"),
        Err(LexError::UnexpectedValue { after: Token::BracketSquareClose })
    );
}

#[test]
fn trailing_comma() {
    assert_eq!(tok("[1,]"), Err(LexError::TrailingComma));
    assert_eq!(tok("{\"a\":1,}"), Err(LexError::TrailingComma));
    assert_eq!(tok("[1,,2]"), Err(LexError::TrailingComma));
    assert_eq!(tok("[1, :"), Err(LexError::TrailingComma));
}

#[test]
fn unterminated_string() {
    assert_eq!(tok("[\"abc"), Err(LexError::UnterminatedString { at: at(1, 5) }));
}

#[test]
fn unterminated_escape() {
    assert_eq!(tok("[\"a\\"), Err(LexError::UnterminatedEscape { at: at(1, 4) }));
}

#[test]
fn invalid_escape() {
    assert_eq!(
        tok("[\"\\x\"]"),
        Err(LexError::InvalidEscape { found: 'x', at: at(1, 3) })
    );
}

#[test]
fn invalid_unicode_escape() {
    assert_eq!(
        tok("[\"\\u12G4\"]"),
        Err(LexError::InvalidUnicodeEscape { at: at(1, 5) })
    );
}

#[test]
fn incomplete_unicode_escape() {
    assert_eq!(tok("[\"\\u12"), Err(LexError::IncompleteUnicodeEscape { at: at(1, 5) }));
}

#[test]
fn surrogate_escape_is_refused() {
    assert_eq!(tok("[\"\\uD800\"]"), Err(LexError::InvalidCodePoint { at: at(1, 7) }));
    assert_eq!(tok("[\"\\udfff\"]"), Err(LexError::InvalidCodePoint { at: at(1, 7) }));
}

#[test]
fn raw_line_feed_tab_and_return_in_string() {
    assert_eq!(tok("[\"a\tb\"]"), Err(LexError::UnescapedControl { at: at(1, 3) }));
    assert_eq!(tok("[\"a\nb\"]"), Err(LexError::UnescapedControl { at: at(1, 3) }));
    assert_eq!(tok("[\"a\rb\"]"), Err(LexError::UnescapedControl { at: at(1, 3) }));
}

#[test]
fn other_raw_control_characters_in_string() {
    assert_eq!(
        tok("[\"\u{1}\"]"),
        Err(LexError::UnescapedControlCode { code: 1, at: at(1, 2) })
    );
    assert_eq!(
        tok("[\"ab\u{7f}\"]"),
        Err(LexError::UnescapedControlCode { code: 0x7f, at: at(1, 4) })
    );
    assert_eq!(
        tok("[\"\u{85}\"]"),
        Err(LexError::UnescapedControlCode { code: 0x85, at: at(1, 2) })
    );
}

#[test]
fn unknown_keyword() {
    assert_eq!(
        tok("[tru]"),
        Err(LexError::UnknownKeyword { word: text("tru"), at: at(1, 5) })
    );
    assert_eq!(
        tok("[nulls]"),
        Err(LexError::UnknownKeyword { word: text("nulls"), at: at(1, 7) })
    );
    // Letters beyond ASCII belong to the word too.
    assert_eq!(
        tok("[trueé]"),
        Err(LexError::UnknownKeyword { word: text("trueé"), at: at(1, 7) })
    );
}

#[test]
fn leading_zeros() {
    assert_eq!(tok("[01]"), Err(LexError::LeadingZeros { at: at(1, 3) }));
    assert_eq!(tok("[-01]"), Err(LexError::LeadingZeros { at: at(1, 4) }));
}

#[test]
fn invalid_number() {
    assert_eq!(tok("[-]"), Err(LexError::InvalidNumber { text: text("-") }));
    assert_eq!(tok("[1e]"), Err(LexError::InvalidNumber { text: text("1e") }));
    assert_eq!(tok("[1e+]"), Err(LexError::InvalidNumber { text: text("1e+") }));
    assert_eq!(tok("[-e5]"), Err(LexError::InvalidNumber { text: text("-e5") }));
}

#[test]
fn number_stops_at_second_sign_or_point() {
    // The number ends where a character can no longer extend it; what follows is then a value
    // right after a value.
    assert_eq!(
        tok("[1.2.3]"),
        Err(LexError::UnexpectedCharacter { found: '.', at: at(1, 5) })
    );
    assert_eq!(
        tok("[1-2]"),
        Err(LexError::UnexpectedValue { after: Token::Number(text("1")) })
    );
}

#[test]
fn positions_count_lines() {
    assert_eq!(
        tok("{\n  \"a\": 1,\n  \"b\": ?\n}"),
        Err(LexError::UnexpectedCharacter { found: '?', at: at(3, 7) })
    );
}

#[test]
fn character_classes_agree_with_std() {
    for code in 0u32..0x110000 {
        if let Some(c) = char::from_u32(code) {
            assert_eq!(is_whitespace(c), c.is_whitespace(), "white space at {:x}", code);
            assert_eq!(is_control(c), c.is_control(), "control at {:x}", code);
        }
    }
    assert_eq!(mark_letters(&vec!['a', ' ', 'é', '7', '京']), vec![true, false, true, false, true]);
}

#[test]
fn tokenizing_with_given_letters() {
    let chars: Vec<char> = "[true]".chars().collect();
    let marks = mark_letters(&chars);
    assert_eq!(
        tokenize_chars(&chars, &marks),
        Ok(vec![Token::BracketSquareOpen, Token::True, Token::BracketSquareClose])
    );
    // With `]` counted as a letter, it belongs to the word.
    let mut marks = mark_letters(&chars);
    marks[5] = true;
    assert_eq!(
        tokenize_chars(&chars, &marks),
        Err(LexError::UnknownKeyword { word: text("true]"), at: at(1, 7) })
    );
}

#[test]
fn ordinary_texts_fit_the_position_counters() {
    assert!(rusty_json::lexer::positions_fit(""));
    assert!(rusty_json::lexer::positions_fit("[1,\n2]\n\n"));
    assert!(rusty_json::lexer::positions_fit("\n"));
}

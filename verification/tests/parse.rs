use rusty_json::error::ParseError;
use rusty_json::parser::{MAX_DEPTH, parse_tokens};
use rusty_json::token::Token;
use rusty_json::value::JsonValue;

fn s(x: &str) -> String {
    x.to_string()
}

#[test]
fn parses_nested_document() {
    let tokens = vec![
        Token::BraceCurlyOpen,
        Token::String(s("a")),
        Token::Colon,
        Token::BracketSquareOpen,
        Token::Number(s("1")),
        Token::Comma,
        Token::Null,
        Token::BracketSquareClose,
        Token::Comma,
        Token::String(s("b")),
        Token::Colon,
        Token::True,
        Token::BraceCurlyClose,
    ];
    assert_eq!(
        parse_tokens(tokens),
        Ok(JsonValue::Object(vec![
            (s("a"), JsonValue::Array(vec![JsonValue::Number(s("1")), JsonValue::Null])),
            (s("b"), JsonValue::Boolean(true)),
        ]))
    );
}

#[test]
fn empty_containers() {
    assert_eq!(
        parse_tokens(vec![Token::BraceCurlyOpen, Token::BraceCurlyClose]),
        Ok(JsonValue::Object(vec![]))
    );
    assert_eq!(
        parse_tokens(vec![Token::BracketSquareOpen, Token::BracketSquareClose]),
        Ok(JsonValue::Array(vec![]))
    );
}

#[test]
fn duplicate_keys_are_kept_in_order() {
    let tokens = vec![
        Token::BraceCurlyOpen,
        Token::String(s("k")),
        Token::Colon,
        Token::False,
        Token::Comma,
        Token::String(s("k")),
        Token::Colon,
        Token::True,
        Token::BraceCurlyClose,
    ];
    assert_eq!(
        parse_tokens(tokens),
        Ok(JsonValue::Object(vec![
            (s("k"), JsonValue::Boolean(false)),
            (s("k"), JsonValue::Boolean(true)),
        ]))
    );
}

#[test]
fn parser_itself_lets_a_comma_stand_before_a_closing_bracket() {
    // The tokenizer refuses such input; the parser on its own reads past the comma.
    assert_eq!(
        parse_tokens(vec![
            Token::BracketSquareOpen,
            Token::Number(s("1")),
            Token::Comma,
            Token::BracketSquareClose,
        ]),
        Ok(JsonValue::Array(vec![JsonValue::Number(s("1"))]))
    );
}

fn nested_arrays(levels: usize) -> Vec<Token> {
    let mut tokens = Vec::new();
    for _ in 0..levels {
        tokens.push(Token::BracketSquareOpen);
    }
    for _ in 0..levels {
        tokens.push(Token::BracketSquareClose);
    }
    tokens
}

#[test]
fn nesting_up_to_the_limit_is_read() {
    assert_eq!(MAX_DEPTH, 19);
    let mut expected = JsonValue::Array(vec![]);
    for _ in 1..19 {
        expected = JsonValue::Array(vec![expected]);
    }
    assert_eq!(parse_tokens(nested_arrays(19)), Ok(expected));
}

#[test]
fn nesting_beyond_the_limit_is_refused() {
    assert_eq!(parse_tokens(nested_arrays(20)), Err(ParseError::TooDeep { depth: 20 }));
    let mut tokens = nested_arrays(19);
    // An object inside the innermost array is one level too deep.
    tokens.insert(19, Token::BraceCurlyOpen);
    tokens.insert(20, Token::BraceCurlyClose);
    assert_eq!(parse_tokens(tokens), Err(ParseError::TooDeep { depth: 20 }));
}

#[test]
fn expected_key_or_close() {
    assert_eq!(
        parse_tokens(vec![Token::BraceCurlyOpen, Token::Number(s("1")), Token::BraceCurlyClose]),
        Err(ParseError::ExpectedKeyOrClose)
    );
    assert_eq!(parse_tokens(vec![Token::BraceCurlyOpen]), Err(ParseError::ExpectedKeyOrClose));
}

#[test]
fn expected_colon() {
    assert_eq!(
        parse_tokens(vec![
            Token::BraceCurlyOpen,
            Token::String(s("a")),
            Token::Comma,
            Token::Number(s("1")),
            Token::BraceCurlyClose,
        ]),
        Err(ParseError::ExpectedColon)
    );
    assert_eq!(
        parse_tokens(vec![Token::BraceCurlyOpen, Token::String(s("a"))]),
        Err(ParseError::ExpectedColon)
    );
}

#[test]
fn expected_comma_or_brace() {
    assert_eq!(
        parse_tokens(vec![
            Token::BraceCurlyOpen,
            Token::String(s("a")),
            Token::Colon,
            Token::Number(s("1")),
            Token::Colon,
        ]),
        Err(ParseError::ExpectedCommaOrBrace)
    );
}

#[test]
fn expected_comma_or_bracket() {
    assert_eq!(
        parse_tokens(vec![
            Token::BracketSquareOpen,
            Token::Number(s("1")),
            Token::Colon,
            Token::Number(s("2")),
            Token::BracketSquareClose,
        ]),
        Err(ParseError::ExpectedCommaOrBracket)
    );
    assert_eq!(
        parse_tokens(vec![Token::BracketSquareOpen, Token::True]),
        Err(ParseError::ExpectedCommaOrBracket)
    );
}

#[test]
fn unexpected_end_in_array() {
    assert_eq!(
        parse_tokens(vec![Token::BracketSquareOpen]),
        Err(ParseError::UnexpectedEndInArray)
    );
    assert_eq!(
        parse_tokens(vec![Token::BracketSquareOpen, Token::True, Token::Comma]),
        Err(ParseError::UnexpectedEndInArray)
    );
}

#[test]
fn unexpected_end() {
    assert_eq!(
        parse_tokens(vec![Token::BraceCurlyOpen, Token::String(s("a")), Token::Colon]),
        Err(ParseError::UnexpectedEnd)
    );
}

#[test]
fn unknown_token() {
    assert_eq!(
        parse_tokens(vec![Token::BracketSquareOpen, Token::Colon, Token::BracketSquareClose]),
        Err(ParseError::UnknownToken)
    );
    assert_eq!(
        parse_tokens(vec![
            Token::BraceCurlyOpen,
            Token::String(s("a")),
            Token::Colon,
            Token::BraceCurlyClose,
        ]),
        Err(ParseError::UnknownToken)
    );
}

#[test]
fn root_must_be_a_container() {
    assert_eq!(parse_tokens(vec![Token::Number(s("1"))]), Err(ParseError::NotContainer));
    assert_eq!(parse_tokens(vec![Token::String(s("x"))]), Err(ParseError::NotContainer));
    assert_eq!(parse_tokens(vec![Token::BraceCurlyClose]), Err(ParseError::NotContainer));
}

#[test]
fn no_tokens() {
    assert_eq!(parse_tokens(vec![]), Err(ParseError::EmptyInput));
}

#[test]
fn nothing_may_follow_the_document() {
    assert_eq!(
        parse_tokens(vec![
            Token::BracketSquareOpen,
            Token::BracketSquareClose,
            Token::BracketSquareClose,
        ]),
        Err(ParseError::ExtraToken { token: Token::BracketSquareClose })
    );
    assert_eq!(
        parse_tokens(vec![
            Token::BraceCurlyOpen,
            Token::BraceCurlyClose,
            Token::Number(s("7")),
        ]),
        Err(ParseError::ExtraToken { token: Token::Number(s("7")) })
    );
}

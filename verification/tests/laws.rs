use rusty_json::json::load_json;
use rusty_json::lexer::tokenize;
use rusty_json::parser::parse_tokens;
use rusty_json::token::Token;
use rusty_json::value::JsonValue;

fn s(x: &str) -> String {
    x.to_string()
}

fn spell(v: &JsonValue, out: &mut Vec<Token>) {
    match v {
        JsonValue::String(x) => out.push(Token::String(x.clone())),
        JsonValue::Number(x) => out.push(Token::Number(x.clone())),
        JsonValue::Boolean(true) => out.push(Token::True),
        JsonValue::Boolean(false) => out.push(Token::False),
        JsonValue::Null => out.push(Token::Null),
        JsonValue::Array(items) => {
            out.push(Token::BracketSquareOpen);
            for (k, item) in items.iter().enumerate() {
                if k > 0 {
                    out.push(Token::Comma);
                }
                spell(item, out);
            }
            out.push(Token::BracketSquareClose);
        }
        JsonValue::Object(members) => {
            out.push(Token::BraceCurlyOpen);
            for (k, (key, value)) in members.iter().enumerate() {
                if k > 0 {
                    out.push(Token::Comma);
                }
                out.push(Token::String(key.clone()));
                out.push(Token::Colon);
                spell(value, out);
            }
            out.push(Token::BraceCurlyClose);
        }
    }
}

fn sample() -> JsonValue {
    JsonValue::Object(vec![
        (s("a"), JsonValue::Array(vec![])),
        (s("b"), JsonValue::Object(vec![])),
        (
            s("c"),
            JsonValue::Array(vec![
                JsonValue::Number(s("-1.5e3")),
                JsonValue::String(s("x")),
                JsonValue::Boolean(false),
                JsonValue::Null,
                JsonValue::Object(vec![(s("d"), JsonValue::Boolean(true))]),
            ]),
        ),
        (s("a"), JsonValue::Null),
    ])
}

#[test]
fn reading_back_a_spelled_document() {
    let mut tokens = Vec::new();
    spell(&sample(), &mut tokens);
    assert_eq!(parse_tokens(tokens), Ok(sample()));
}

fn nested(levels: usize) -> JsonValue {
    let mut v = JsonValue::Object(vec![(s("leaf"), JsonValue::Number(s("1")))]);
    for _ in 1..levels {
        v = JsonValue::Array(vec![JsonValue::Null, v]);
    }
    v
}

#[test]
fn depth_limit_on_spelled_documents() {
    let mut tokens = Vec::new();
    spell(&nested(19), &mut tokens);
    assert_eq!(parse_tokens(tokens), Ok(nested(19)));
    let mut tokens = Vec::new();
    spell(&nested(20), &mut tokens);
    assert_eq!(
        parse_tokens(tokens),
        Err(rusty_json::error::ParseError::TooDeep { depth: 20 })
    );
}

fn is_scalar(t: &Token) -> bool {
    matches!(
        t,
        Token::String(_) | Token::Number(_) | Token::True | Token::False | Token::Null
    )
}

fn is_closing(t: &Token) -> bool {
    matches!(
        t,
        Token::BraceCurlyClose | Token::BracketSquareClose | Token::Comma | Token::Colon
    )
}

#[test]
fn tokenizer_output_is_well_placed_with_parsable_numbers() {
    let inputs = [
        "{\"a\": [1, 2.5e-3, -0, true], \"b\": {\"c\": null}}",
        "[ 1 , 2 ] ] ] : {",
        "} , [ \"x\" : false",
        "[1., -.5, 00, 1E5]",
    ];
    for input in inputs.iter() {
        let tokens = tokenize(s(input)).unwrap();
        for k in 0..tokens.len() {
            if is_scalar(&tokens[k]) && k > 0 {
                assert!(matches!(
                    tokens[k - 1],
                    Token::Comma | Token::Colon | Token::BraceCurlyOpen | Token::BracketSquareOpen
                ));
            }
            if is_closing(&tokens[k]) && k > 0 {
                assert!(!matches!(tokens[k - 1], Token::Comma));
            }
            if let Token::Number(text) = &tokens[k] {
                assert!(text.parse::<f64>().is_ok());
            }
        }
    }
}

fn all_numbers_parse(v: &JsonValue) -> bool {
    match v {
        JsonValue::Number(text) => text.parse::<f64>().is_ok(),
        JsonValue::Array(items) => items.iter().all(all_numbers_parse),
        JsonValue::Object(members) => members.iter().all(|(_, v)| all_numbers_parse(v)),
        _ => true,
    }
}

#[test]
fn loaded_documents_are_containers_with_parsable_numbers() {
    let v = load_json(s("[1, -2.5, 3e7, {\"x\": [0.0, -0]}]")).unwrap();
    assert!(matches!(v, JsonValue::Array(_)));
    assert!(all_numbers_parse(&v));
}

#[test]
fn loaded_text_is_tokenized_into_the_spelling_of_the_document() {
    let inputs = [
        "{\"a\": [1, 2.5e-3, -0, true], \"b\": {\"c\": null}, \"a\": \"dup\"}",
        "[ [ ], { }, [[[\"x\"]]] ]",
    ];
    for input in inputs.iter() {
        let v = load_json(s(input)).unwrap();
        let mut spelled = Vec::new();
        spell(&v, &mut spelled);
        assert_eq!(tokenize(s(input)).unwrap(), spelled);
    }
}

#[test]
fn tokens_that_spell_no_document_do_not_load() {
    // Each of these tokenizes, but its tokens spell no document.
    for input in ["[1 : 2]", "{\"a\" , 1}", "[] []", "{1}"].iter() {
        assert!(tokenize(s(input)).is_ok());
        assert!(load_json(s(input)).is_err());
    }
}

#[test]
fn white_space_between_tokens_changes_no_token() {
    let plain = tokenize(s("{\"a\":[1,2.5e-3,true,null],\"b\":\"x y\"}")).unwrap();
    let spaced = tokenize(s(
        "\n  { \"a\" :\t[ 1 ,\r\n2.5e-3 , true,null ] ,\n \"b\"  : \"x y\" }  \r\n",
    ))
    .unwrap();
    assert_eq!(plain, spaced);
    assert_eq!(tokenize(s("[1 2]")).is_err(), true);
    assert_eq!(tokenize(s("[12]")).unwrap()[1], Token::Number(s("12")));
}

fn escaped(text: &str) -> String {
    let mut out = String::new();
    for c in text.chars() {
        if c == '"' {
            out.push_str("\\\"");
        } else if c == '\\' {
            out.push_str("\\\\");
        } else if c.is_control() {
            out.push_str(&format!("\\u{:04x}", c as u32));
        } else {
            out.push(c);
        }
    }
    out
}

#[test]
fn escaped_text_reads_back_as_itself() {
    let samples = [
        "plain",
        "quote \" and backslash \\",
        "tab\tline\nreturn\r",
        "\u{1}\u{1f}\u{7f}\u{9f} controls",
        "é ✓ \u{10348}",
        "",
    ];
    for text in samples.iter() {
        let tokens = tokenize(format!("[\"{}\"]", escaped(text))).unwrap();
        assert_eq!(
            tokens,
            vec![Token::BracketSquareOpen, Token::String(s(text)), Token::BracketSquareClose]
        );
    }
}

fn written(tokens: &[Token]) -> String {
    let mut out = String::new();
    for t in tokens.iter() {
        match t {
            Token::BraceCurlyOpen => out.push('{'),
            Token::BraceCurlyClose => out.push('}'),
            Token::BracketSquareOpen => out.push('['),
            Token::BracketSquareClose => out.push(']'),
            Token::Comma => out.push(','),
            Token::Colon => out.push(':'),
            Token::String(text) => out.push_str(&format!("\"{}\"", escaped(text))),
            Token::Number(text) => out.push_str(text),
            Token::True => out.push_str("true"),
            Token::False => out.push_str("false"),
            Token::Null => out.push_str("null"),
        }
        out.push(' ');
    }
    out
}

#[test]
fn written_tokens_read_back() {
    let tokens = vec![
        Token::BraceCurlyOpen,
        Token::String(s("key \"q\"\n\u{1}")),
        Token::Colon,
        Token::BracketSquareOpen,
        Token::Number(s("-1.5e+3")),
        Token::Comma,
        Token::Number(s("0")),
        Token::Comma,
        Token::True,
        Token::Comma,
        Token::False,
        Token::Comma,
        Token::Null,
        Token::BracketSquareClose,
        Token::BraceCurlyClose,
    ];
    assert_eq!(tokenize(written(&tokens)).unwrap(), tokens);
    assert_eq!(tokenize(written(&[])).unwrap(), vec![]);
}

#[test]
fn written_document_loads_back() {
    let mut tokens = Vec::new();
    spell(&sample(), &mut tokens);
    let text = written(&tokens);
    assert_eq!(tokenize(text.clone()).unwrap(), tokens);
    assert_eq!(load_json(text), Ok(sample()));
}

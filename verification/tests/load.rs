use rusty_json::error::{JsonError, LexError, ParseError};
use rusty_json::float_text::is_float_text;
use rusty_json::json::{load_json, sum_as_string, test_file, trim_text};
use rusty_json::value::JsonValue;

fn s(x: &str) -> String {
    x.to_string()
}

#[test]
fn loads_a_document() {
    assert_eq!(
        load_json(s(" { \"name\" : \"x\", \"list\": [1, 2.5, {\"deep\": [null]}] } ")),
        Ok(JsonValue::Object(vec![
            (s("name"), JsonValue::String(s("x"))),
            (
                s("list"),
                JsonValue::Array(vec![
                    JsonValue::Number(s("1")),
                    JsonValue::Number(s("2.5")),
                    JsonValue::Object(vec![(s("deep"), JsonValue::Array(vec![JsonValue::Null]))]),
                ])
            ),
        ]))
    );
}

#[test]
fn load_reports_the_failing_stage() {
    assert_eq!(load_json(s("[1,]")), Err(JsonError::Tokenize(LexError::TrailingComma)));
    assert_eq!(load_json(s("[1 : 2]")), Err(JsonError::Parse(ParseError::ExpectedCommaOrBracket)));
    assert_eq!(load_json(s("\"text\"")), Err(JsonError::Parse(ParseError::NotContainer)));
    assert_eq!(load_json(s("42")), Err(JsonError::Parse(ParseError::NotContainer)));
    assert_eq!(load_json(s("")), Err(JsonError::Parse(ParseError::EmptyInput)));
    assert_eq!(load_json(s("{\"a\":")), Err(JsonError::Parse(ParseError::UnexpectedEnd)));
    assert_eq!(
        load_json(s("[] []")),
        Err(JsonError::Parse(ParseError::ExtraToken {
            token: rusty_json::token::Token::BracketSquareOpen
        }))
    );
}

#[test]
fn test_file_passes_when_outcome_matches_name() {
    assert_eq!(
        test_file("pass1.json", s("[1, 2]")),
        (true, s("\u{2713} pass1.json: PASS (expected pass)"))
    );
    assert_eq!(
        test_file("fail1.json", s("[1, 2]")),
        (false, s("\u{2717} fail1.json: FAIL (expected fail, but passed)"))
    );
    assert_eq!(
        test_file("fail2.json", s("[1, 2")),
        (true, s("\u{2713} fail2.json: PASS (expected fail, got: Expected ',' or ']' in array)"))
    );
    assert_eq!(
        test_file("pass2.json", s("[1, 2")),
        (false, s("\u{2717} pass2.json: FAIL (expected pass, error: Expected ',' or ']' in array)"))
    );
    assert_eq!(
        test_file("pass3.json", s("[01]")),
        (
            false,
            s("\u{2717} pass3.json: FAIL (tokenize error: Invalid number: leading zeros not allowed at position 1:3)")
        )
    );
    assert_eq!(
        test_file("fail3.json", s("[tru]")),
        (
            true,
            s("\u{2713} fail3.json: PASS (expected fail, got: Unknown keyword: 'tru' at position 1:5)")
        )
    );
    // Only a name that starts with `pass` expects the file to load.
    let (ok, _) = test_file("pas.json", s("[]"));
    assert!(!ok);
    let (ok, _) = test_file("Pass.json", s("[]"));
    assert!(!ok);
}

#[test]
fn sum_as_string_formats_the_sum() {
    assert_eq!(sum_as_string(7, 5), "12");
    assert_eq!(sum_as_string(0, 0), "0");
    assert_eq!(sum_as_string(1000, 234), "1234");
    assert_eq!(sum_as_string(usize::MAX - 1, 1), usize::MAX.to_string());
}

fn chars(x: &str) -> Vec<char> {
    x.chars().collect()
}

#[test]
fn float_text_follows_rusts_f64_parser() {
    let samples = [
        "1", "-1", "+1", "1.", ".5", "-.5", "1.5e10", "1E-3", "1e+3", "00", "inf", "-Infinity",
        "NaN", "nan", "INF", "infinity", "", "-", "+", ".", "e5", "1e", "1e+", "1.2.3", "1..2",
        "1e5e5", "--1", "1-", "inff", "na", "1 ", " 1", "0x10", "1_000", "١",
    ];
    for sample in samples.iter() {
        assert_eq!(
            is_float_text(&chars(sample)),
            sample.parse::<f64>().is_ok(),
            "disagreement on {:?}",
            sample
        );
    }
}

#[test]
fn trimming_removes_white_space_at_both_ends_only() {
    assert_eq!(trim_text("  \n\t{\"a\": 1}\r\n "), "{\"a\": 1}");
    assert_eq!(trim_text("[1,  2]"), "[1,  2]");
    assert_eq!(trim_text(" \t\n "), "");
    assert_eq!(trim_text(""), "");
    assert_eq!(trim_text("\u{3000}\u{a0}x y\u{2028}\u{85}"), "x y");
    for text in ["  a b  ", "\u{200a}z", "q\u{1680}", "\u{b}\u{c}[]\u{2029}"].iter() {
        assert_eq!(trim_text(text), text.trim());
    }
}

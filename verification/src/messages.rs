use vstd::prelude::*;
use crate::error::{JsonError, LexError, ParseError, SpecJsonError, SpecLexError, SpecParseError};
use crate::escapes::hex_char;
use crate::json::{decimal, push_decimal, signed_decimal};
use crate::parser::MAX_DEPTH;
use crate::position::Position;
use crate::token::{SpecToken, Token};

verus! {

// ---------------------------------------------------------------------------------------
// The texts that describe tokens, positions and errors.
// ---------------------------------------------------------------------------------------

/// What `format!("{:?}", ..)` writes for a string: `s` between quotes, with the characters
/// that need it escaped.
pub uninterp spec fn debug_quoted(s: Seq<char>) -> Seq<char>;

/// Calls the `Debug` formatting of `str`. Claimed: the text depends on `s` alone, and is
/// named [`debug_quoted`]; which characters it escapes, and how, is left unsaid.
#[verifier::external_body]
fn quoted(s: &str) -> (r: String)
    ensures
        r@ == debug_quoted(s@),
{
    format!("{:?}", s)
}

/// A position as text: the row, a colon and the column, each in decimal.
pub open spec fn position_text(at: Position) -> Seq<char> {
    signed_decimal(at.row as int) + seq![':'] + signed_decimal(at.column as int)
}

/// How a token is written in a message: the name of its kind, and for a string or a number
/// its text, quoted, in brackets.
pub open spec fn token_debug(t: SpecToken) -> Seq<char> {
    match t {
        SpecToken::BraceCurlyOpen => "BraceCurlyOpen"@,
        SpecToken::BraceCurlyClose => "BraceCurlyClose"@,
        SpecToken::BracketSquareOpen => "BracketSquareOpen"@,
        SpecToken::BracketSquareClose => "BracketSquareClose"@,
        SpecToken::Comma => "Comma"@,
        SpecToken::Colon => "Colon"@,
        SpecToken::Str(s) => "String("@ + debug_quoted(s) + ")"@,
        SpecToken::Num(s) => "Number("@ + debug_quoted(s) + ")"@,
        SpecToken::True => "True"@,
        SpecToken::False => "False"@,
        SpecToken::Null => "Null"@,
    }
}

/// The lower-case hexadecimal numeral of `n`, without leading zeros.
pub open spec fn hex_numeral(n: nat) -> Seq<char>
    decreases n,
{
    if n < 16 {
        seq![hex_char(n as int)]
    } else {
        hex_numeral(n / 16).push(hex_char((n % 16) as int))
    }
}

/// The lower-case hexadecimal numeral of `n`, at least two digits long.
pub open spec fn hex_two(n: nat) -> Seq<char> {
    if n < 16 {
        seq!['0', hex_char(n as int)]
    } else {
        hex_numeral(n)
    }
}

/// The message that describes a tokenizer error.
pub open spec fn lex_error_text(e: SpecLexError) -> Seq<char> {
    match e {
        SpecLexError::UnexpectedCharacter { found, at } => "Unexpected character: '"@ + seq![found]
            + "' at position "@ + position_text(at),
        SpecLexError::UnexpectedValue { after } => "Unexpected value after "@ + token_debug(after),
        SpecLexError::TrailingComma => "Unexpected token after comma (trailing comma?)"@,
        SpecLexError::UnterminatedString { at } => "Unterminated string literal at position "@
            + position_text(at),
        SpecLexError::UnterminatedEscape { at } => "Unterminated escape sequence at position "@
            + position_text(at),
        SpecLexError::InvalidEscape { found, at } => "Invalid escape sequence '\\"@ + seq![found]
            + "' at position "@ + position_text(at),
        SpecLexError::InvalidUnicodeEscape { at } =>
            "Invalid unicode escape sequence at position "@ + position_text(at),
        SpecLexError::IncompleteUnicodeEscape { at } =>
            "Incomplete unicode escape sequence at position "@ + position_text(at),
        SpecLexError::InvalidCodePoint { at } => "Invalid unicode code point at position "@
            + position_text(at),
        SpecLexError::UnescapedControl { at } =>
            "Unescaped control character in string at position "@ + position_text(at),
        SpecLexError::UnescapedControlCode { code, at } => "Unescaped control character (0x"@
            + hex_two(code as nat) + ") in string at position "@ + position_text(at),
        SpecLexError::UnknownKeyword { word, at } => "Unknown keyword: '"@ + word
            + "' at position "@ + position_text(at),
        SpecLexError::LeadingZeros { at } =>
            "Invalid number: leading zeros not allowed at position "@ + position_text(at),
        SpecLexError::InvalidNumber { text } => "Invalid number format: '"@ + text + "'"@,
    }
}

/// The message that describes a parser error.
pub open spec fn parse_error_text(e: SpecParseError) -> Seq<char> {
    match e {
        SpecParseError::TooDeep { depth } => "Detected nesting level "@ + decimal(depth as nat)
            + ", max allowed "@ + decimal(MAX_DEPTH as nat),
        SpecParseError::ExpectedKeyOrClose => "Expected string key or '}' in object"@,
        SpecParseError::ExpectedColon => "Expected ':' after object key"@,
        SpecParseError::ExpectedCommaOrBrace => "Expected ',' or '}' in object"@,
        SpecParseError::ExpectedCommaOrBracket => "Expected ',' or ']' in array"@,
        SpecParseError::UnexpectedEndInArray => "Unexpected end of tokens in array"@,
        SpecParseError::UnexpectedEnd => "Unexpected end of tokens"@,
        SpecParseError::UnknownToken => "Unknown Token detected"@,
        SpecParseError::NotContainer =>
            "JSON must be an object or array, not a primitive value"@,
        SpecParseError::EmptyInput => "Empty JSON input"@,
        SpecParseError::ExtraToken { token } => "Unexpected token after root value: "@
            + token_debug(token),
    }
}

/// The message that describes why loading failed.
pub open spec fn json_error_text(e: SpecJsonError) -> Seq<char> {
    match e {
        SpecJsonError::Tokenize(e) => lex_error_text(e),
        SpecJsonError::Parse(e) => parse_error_text(e),
    }
}

/// The lower-case hexadecimal digit for `d`.
fn hex_digit_char(d: u32) -> (c: char)
    requires
        d < 16,
    ensures
        c == hex_char(d as int),
{
    if d == 0 {
        '0'
    } else if d == 1 {
        '1'
    } else if d == 2 {
        '2'
    } else if d == 3 {
        '3'
    } else if d == 4 {
        '4'
    } else if d == 5 {
        '5'
    } else if d == 6 {
        '6'
    } else if d == 7 {
        '7'
    } else if d == 8 {
        '8'
    } else if d == 9 {
        '9'
    } else if d == 10 {
        'a'
    } else if d == 11 {
        'b'
    } else if d == 12 {
        'c'
    } else if d == 13 {
        'd'
    } else if d == 14 {
        'e'
    } else {
        'f'
    }
}

/// Appends the lower-case hexadecimal numeral of `n` to `out`.
fn push_hex(out: &mut String, n: u32)
    ensures
        final(out)@ == old(out)@ + hex_numeral(n as nat),
{
    // The digits, the least significant first.
    let mut digits: Vec<char> = Vec::new();
    let mut m = n;
    loop
        invariant
            hex_numeral(n as nat) == hex_numeral(m as nat) + digits@.reverse(),
        ensures
            m < 16,
            hex_numeral(n as nat) == hex_numeral(m as nat) + digits@.reverse(),
        decreases m,
    {
        if m < 16 {
            break;
        }
        let c = hex_digit_char(m % 16);
        proof {
            assert(hex_numeral(m as nat) == hex_numeral((m / 16) as nat).push(c));
            assert(digits@.push(c).reverse() =~= seq![c] + digits@.reverse());
            assert(hex_numeral((m / 16) as nat).push(c) =~= hex_numeral((m / 16) as nat) + seq![
                c,
            ]);
        }
        digits.push(c);
        m = m / 16;
    }
    let ghost start = out@;
    out.push(hex_digit_char(m));
    assert(hex_numeral(m as nat) =~= seq![hex_char(m as int)]);
    let mut k = digits.len();
    while k > 0
        invariant
            k <= digits.len(),
            hex_numeral(n as nat) == hex_numeral(m as nat) + digits@.reverse(),
            m < 16,
            out@ == start + hex_numeral(m as nat) + digits@.subrange(
                k as int,
                digits.len() as int,
            ).reverse(),
        decreases k,
    {
        k = k - 1;
        proof {
            assert(digits@.subrange(k as int, digits.len() as int).reverse() =~= digits@.subrange(
                k + 1,
                digits.len() as int,
            ).reverse().push(digits@[k as int]));
        }
        out.push(digits[k]);
    }
    assert(digits@.subrange(0, digits.len() as int) =~= digits@);
    assert(out@ =~= start + hex_numeral(n as nat));
}

/// Appends the lower-case hexadecimal numeral of `n`, at least two digits long, to `out`.
fn push_hex_two(out: &mut String, n: u32)
    ensures
        final(out)@ == old(out)@ + hex_two(n as nat),
{
    if n < 16 {
        out.push('0');
        out.push(hex_digit_char(n));
        assert(final(out)@ =~= old(out)@ + hex_two(n as nat));
    } else {
        push_hex(out, n);
    }
}

/// The text `prefix`, followed by a position.
fn text_at(prefix: &str, at: &Position) -> (r: String)
    ensures
        r@ == prefix@ + position_text(*at),
{
    let mut r = String::from_str(prefix);
    r.append(at.to_string().as_str());
    r
}

/// How `t` is written in a message.
pub fn token_debug_text(t: &Token) -> (r: String)
    ensures
        r@ == token_debug(t@),
{
    match t {
        Token::BraceCurlyOpen => String::from_str("BraceCurlyOpen"),
        Token::BraceCurlyClose => String::from_str("BraceCurlyClose"),
        Token::BracketSquareOpen => String::from_str("BracketSquareOpen"),
        Token::BracketSquareClose => String::from_str("BracketSquareClose"),
        Token::Comma => String::from_str("Comma"),
        Token::Colon => String::from_str("Colon"),
        Token::String(s) => {
            let mut r = String::from_str("String(");
            r.append(quoted(s.as_str()).as_str());
            r.append(")");
            r
        },
        Token::Number(s) => {
            let mut r = String::from_str("Number(");
            r.append(quoted(s.as_str()).as_str());
            r.append(")");
            r
        },
        Token::True => String::from_str("True"),
        Token::False => String::from_str("False"),
        Token::Null => String::from_str("Null"),
    }
}

impl LexError {
    /// The message that describes this error.
    pub fn to_string(&self) -> (r: String)
        ensures
            r@ == lex_error_text(self@),
    {
        match self {
            LexError::UnexpectedCharacter { found, at } => {
                let mut r = String::from_str("Unexpected character: '");
                r.push(*found);
                r.append("' at position ");
                r.append(at.to_string().as_str());
                r
            },
            LexError::UnexpectedValue { after } => {
                let mut r = String::from_str("Unexpected value after ");
                r.append(token_debug_text(after).as_str());
                r
            },
            LexError::TrailingComma => String::from_str(
                "Unexpected token after comma (trailing comma?)",
            ),
            LexError::UnterminatedString { at } => text_at(
                "Unterminated string literal at position ",
                at,
            ),
            LexError::UnterminatedEscape { at } => text_at(
                "Unterminated escape sequence at position ",
                at,
            ),
            LexError::InvalidEscape { found, at } => {
                let mut r = String::from_str("Invalid escape sequence '\\");
                r.push(*found);
                r.append("' at position ");
                r.append(at.to_string().as_str());
                r
            },
            LexError::InvalidUnicodeEscape { at } => text_at(
                "Invalid unicode escape sequence at position ",
                at,
            ),
            LexError::IncompleteUnicodeEscape { at } => text_at(
                "Incomplete unicode escape sequence at position ",
                at,
            ),
            LexError::InvalidCodePoint { at } => text_at(
                "Invalid unicode code point at position ",
                at,
            ),
            LexError::UnescapedControl { at } => text_at(
                "Unescaped control character in string at position ",
                at,
            ),
            LexError::UnescapedControlCode { code, at } => {
                let mut r = String::from_str("Unescaped control character (0x");
                push_hex_two(&mut r, *code);
                r.append(") in string at position ");
                r.append(at.to_string().as_str());
                r
            },
            LexError::UnknownKeyword { word, at } => {
                let mut r = String::from_str("Unknown keyword: '");
                r.append(word.as_str());
                r.append("' at position ");
                r.append(at.to_string().as_str());
                r
            },
            LexError::LeadingZeros { at } => text_at(
                "Invalid number: leading zeros not allowed at position ",
                at,
            ),
            LexError::InvalidNumber { text } => {
                let mut r = String::from_str("Invalid number format: '");
                r.append(text.as_str());
                r.append("'");
                r
            },
        }
    }
}

impl ParseError {
    /// The message that describes this error.
    pub fn to_string(&self) -> (r: String)
        ensures
            r@ == parse_error_text(self@),
    {
        match self {
            ParseError::TooDeep { depth } => {
                let mut r = String::from_str("Detected nesting level ");
                push_decimal(&mut r, *depth);
                r.append(", max allowed ");
                push_decimal(&mut r, MAX_DEPTH);
                r
            },
            ParseError::ExpectedKeyOrClose => String::from_str(
                "Expected string key or '}' in object",
            ),
            ParseError::ExpectedColon => String::from_str("Expected ':' after object key"),
            ParseError::ExpectedCommaOrBrace => String::from_str("Expected ',' or '}' in object"),
            ParseError::ExpectedCommaOrBracket => String::from_str("Expected ',' or ']' in array"),
            ParseError::UnexpectedEndInArray => String::from_str(
                "Unexpected end of tokens in array",
            ),
            ParseError::UnexpectedEnd => String::from_str("Unexpected end of tokens"),
            ParseError::UnknownToken => String::from_str("Unknown Token detected"),
            ParseError::NotContainer => String::from_str(
                "JSON must be an object or array, not a primitive value",
            ),
            ParseError::EmptyInput => String::from_str("Empty JSON input"),
            ParseError::ExtraToken { token } => {
                let mut r = String::from_str("Unexpected token after root value: ");
                r.append(token_debug_text(token).as_str());
                r
            },
        }
    }
}

impl JsonError {
    /// The message that describes why loading failed.
    pub fn to_string(&self) -> (r: String)
        ensures
            r@ == json_error_text(self@),
    {
        match self {
            JsonError::Tokenize(e) => e.to_string(),
            JsonError::Parse(e) => e.to_string(),
        }
    }
}

} // verus!

use vstd::prelude::*;
use crate::chars::{
    char_from_code, chars_of, hex_digit, hex_digit_value, is_control, is_control_char, is_digit,
    is_scalar_value, is_white_space, is_whitespace, lemma_same_letters, letters_of, mark_letters,
};
use crate::error::{LexError, SpecLexError};
use crate::float_text::{is_float_literal, is_float_text};
use crate::position::Position;
use crate::token::{SpecToken, Token, tokens_view};

verus! {

// ---------------------------------------------------------------------------------------
// The model: how JSON text is split into tokens.
// ---------------------------------------------------------------------------------------

/// The character that the escape `\e` stands for, for each `e` but `u`.
pub open spec fn simple_escape(e: char) -> Option<char> {
    if e == '"' {
        Some('"')
    } else if e == '\\' {
        Some('\\')
    } else if e == '/' {
        Some('/')
    } else if e == 'b' {
        Some('\u{0008}')
    } else if e == 'f' {
        Some('\u{000C}')
    } else if e == 'n' {
        Some('\n')
    } else if e == 'r' {
        Some('\r')
    } else if e == 't' {
        Some('\t')
    } else {
        None
    }
}

/// Reads the four hexadecimal digits of a `\u` escape that start at `s[i]`, of which `k`
/// are read, with value `value`; `at` is where the next digit stands. Gives the code and
/// the position after the last digit.
pub open spec fn spec_unicode_escape(s: Seq<char>, i: int, k: int, value: int, at: Position)
    -> Result<(int, Position), SpecLexError>
    decreases 4 - k,
{
    if k >= 4 {
        Ok((value, at))
    } else if i + k < 0 || i + k >= s.len() {
        Err(SpecLexError::IncompleteUnicodeEscape { at })
    } else {
        match hex_digit_value(s[i + k]) {
            Some(d) => spec_unicode_escape(s, i, k + 1, value * 16 + d, at.spec_next_column()),
            None => Err(SpecLexError::InvalidUnicodeEscape { at }),
        }
    }
}

/// `16` to the power `k`, for the few `k` that a `\u` escape needs.
pub open spec fn pow16(k: int) -> int {
    if k <= 0 {
        1
    } else if k == 1 {
        16
    } else if k == 2 {
        256
    } else if k == 3 {
        4096
    } else {
        65536
    }
}

/// Reads the rest of a string literal whose opening quote has been read: `s[i]` is the next
/// character, `at` its position and `text` what the literal holds so far. Gives the text,
/// the index after the closing quote and the position there.
pub open spec fn spec_lex_string(
    s: Seq<char>,
    i: int,
    at: Position,
    text: Seq<char>,
) -> Result<(Seq<char>, int, Position), SpecLexError>
    decreases s.len() - i,
{
    if i < 0 || i >= s.len() {
        Err(SpecLexError::UnterminatedString { at })
    } else {
        let c = s[i];
        if c == '"' {
            Ok((text, i + 1, at.spec_next_column()))
        } else if c == '\\' {
            let p1 = at.spec_next_column();
            if i + 1 >= s.len() {
                Err(SpecLexError::UnterminatedEscape { at: p1 })
            } else {
                let e = s[i + 1];
                match simple_escape(e) {
                    Some(d) => spec_lex_string(s, i + 2, p1.spec_next_column(), text.push(d)),
                    None => if e == 'u' {
                        match spec_unicode_escape(s, i + 2, 0, 0, p1) {
                            Ok((code, p2)) => if is_scalar_value(code) {
                                proof {
                                    lemma_unicode_escape_reads_four(s, i + 2, 0, 0, p1);
                                }
                                spec_lex_string(
                                    s,
                                    i + 6,
                                    p2.spec_next_column(),
                                    text.push(code as char),
                                )
                            } else {
                                Err(SpecLexError::InvalidCodePoint { at: p2 })
                            },
                            Err(err) => Err(err),
                        }
                    } else {
                        Err(SpecLexError::InvalidEscape { found: e, at: p1 })
                    },
                }
            }
        } else if c == '\n' || c == '\r' || c == '\t' {
            Err(SpecLexError::UnescapedControl { at })
        } else if is_control_char(c) {
            Err(SpecLexError::UnescapedControlCode { code: c as u32, at })
        } else {
            spec_lex_string(s, i + 1, at.spec_next_column(), text.push(c))
        }
    }
}

/// A `\u` escape that succeeds has read its four digits.
pub proof fn lemma_unicode_escape_reads_four(
    s: Seq<char>,
    i: int,
    k: int,
    value: int,
    at: Position,
)
    requires
        0 <= k <= 4,
    ensures
        k < 4 && spec_unicode_escape(s, i, k, value, at) is Ok ==> 0 <= i + 3 < s.len(),
    decreases 4 - k,
{
    if k < 4 && 0 <= i + k < s.len() {
        if let Some(d) = hex_digit_value(s[i + k]) {
            lemma_unicode_escape_reads_four(s, i, k + 1, value * 16 + d, at.spec_next_column());
        }
    }
}


/// The index of the first line feed in `s` from `s[i]` on, or the end of `s`: where the line
/// that `s[i]` stands on ends.
pub open spec fn line_end(s: Seq<char>, i: int) -> int
    decreases s.len() - i,
{
    if 0 <= i < s.len() && s[i] != '\n' {
        line_end(s, i + 1)
    } else {
        i
    }
}

/// How many line feeds stand before `s[i]`.
pub open spec fn newlines_before(s: Seq<char>, i: int) -> int
    decreases i,
{
    if i <= 0 {
        0
    } else {
        newlines_before(s, i - 1) + if i - 1 < s.len() && s[i - 1] == '\n' {
            1int
        } else {
            0int
        }
    }
}

/// Whether the lines and columns of `s` can be counted in `i32`: it holds fewer than
/// `i32::MAX` line feeds, and each of its lines fewer than `i32::MAX` characters.
pub open spec fn fits_positions(s: Seq<char>) -> bool {
    &&& newlines_before(s, s.len() as int) < i32::MAX
    &&& forall|i: int|
        0 <= i <= s.len() && (i == 0 || s[i - 1] == '\n') ==> #[trigger] line_end(s, i) - i
            < i32::MAX
}

/// The line of `s[i]` ends between `i` and the end of `s`, at a line feed or at the end, and
/// holds no line feed before that.
pub proof fn lemma_line_end(s: Seq<char>, i: int)
    requires
        0 <= i <= s.len(),
    ensures
        i <= line_end(s, i) <= s.len(),
        line_end(s, i) < s.len() ==> s[line_end(s, i)] == '\n',
        forall|q: int| i <= q < line_end(s, i) ==> s[q] != '\n',
    decreases s.len() - i,
{
    if i < s.len() && s[i] != '\n' {
        lemma_line_end(s, i + 1);
    }
}

/// Moving along a line keeps its end and the count of line feeds before.
pub proof fn lemma_same_line(s: Seq<char>, i: int, j: int)
    requires
        0 <= i <= j <= line_end(s, i),
        j <= s.len(),
    ensures
        line_end(s, j) == line_end(s, i),
        newlines_before(s, j) == newlines_before(s, i),
    decreases j - i,
{
    lemma_line_end(s, i);
    if i < j {
        lemma_same_line(s, i + 1, j);
        assert(s[i] != '\n');
        assert(newlines_before(s, i + 1) == newlines_before(s, i));
    }
}

/// The count of line feeds grows along the text, by one at each line feed.
pub proof fn lemma_newlines_grow(s: Seq<char>, i: int, j: int)
    requires
        0 <= i <= j <= s.len(),
    ensures
        newlines_before(s, i) <= newlines_before(s, j),
        i < j && s[i] == '\n' ==> newlines_before(s, i) < newlines_before(s, j),
    decreases j - i,
{
    if i < j {
        lemma_newlines_grow(s, i, j - 1);
    }
}

/// `at`, moved `n` columns to the right.
pub open spec fn advanced(at: Position, n: int) -> Position {
    Position { row: at.row, column: (at.column + n) as i32 }
}

/// The end of the run of alphabetic characters that starts at `s[i]`, where `k` says which
/// characters of `s` are letters.
pub open spec fn alphabetic_run_end(s: Seq<char>, k: Seq<bool>, i: int) -> int
    decreases s.len() - i,
{
    if 0 <= i < s.len() && k[i] {
        alphabetic_run_end(s, k, i + 1)
    } else {
        i
    }
}

/// The token that a keyword stands for, if `word` is one.
pub open spec fn keyword_token(word: Seq<char>) -> Option<SpecToken> {
    if word == seq!['t', 'r', 'u', 'e'] {
        Some(SpecToken::True)
    } else if word == seq!['f', 'a', 'l', 's', 'e'] {
        Some(SpecToken::False)
    } else if word == seq!['n', 'u', 'l', 'l'] {
        Some(SpecToken::Null)
    } else {
        None
    }
}

/// Reads the run of letters that starts at `s[i]`, at position `at`, as a keyword; `k`
/// says which characters of `s` are letters. Gives its token, the index after it and the
/// position there.
pub open spec fn spec_lex_keyword(s: Seq<char>, k: Seq<bool>, i: int, at: Position) -> Result<
    (SpecToken, int, Position),
    SpecLexError,
> {
    let j = alphabetic_run_end(s, k, i);
    let word = s.subrange(i, j);
    match keyword_token(word) {
        Some(t) => Ok((t, j, advanced(at, j - i))),
        None => Err(SpecLexError::UnknownKeyword { word, at: advanced(at, j - i) }),
    }
}

/// Reads the characters of a number from `s[i]` on, at position `at`; `text` holds the
/// characters read so far, and the flags say whether a decimal point or an exponent has
/// been read and whether the last character read was a leading minus or an `e`.
/// Gives the text, the index after it and the position there.
pub open spec fn spec_lex_number(
    s: Seq<char>,
    i: int,
    at: Position,
    text: Seq<char>,
    has_decimal: bool,
    has_exponent: bool,
    after_minus: bool,
) -> Result<(Seq<char>, int, Position), SpecLexError>
    decreases s.len() - i,
{
    if i < 0 || i >= s.len() {
        Ok((text, i, at))
    } else {
        let c = s[i];
        let next = at.spec_next_column();
        if is_digit(c) {
            if (text == seq!['0'] || text == seq!['-', '0']) && c != '0' {
                Err(SpecLexError::LeadingZeros { at })
            } else {
                spec_lex_number(s, i + 1, next, text.push(c), has_decimal, has_exponent, false)
            }
        } else if c == '.' && !has_decimal && !has_exponent {
            spec_lex_number(s, i + 1, next, text.push(c), true, has_exponent, false)
        } else if c == '-' && text.len() == 0 {
            spec_lex_number(s, i + 1, next, text.push(c), has_decimal, has_exponent, true)
        } else if (c == '+' || c == '-') && has_exponent && after_minus {
            spec_lex_number(s, i + 1, next, text.push(c), has_decimal, has_exponent, false)
        } else if (c == 'e' || c == 'E') && !has_exponent {
            spec_lex_number(s, i + 1, next, text.push(c), has_decimal, true, true)
        } else {
            Ok((text, i, at))
        }
    }
}

/// Reads a number that starts at `s[i]`, at position `at`, and checks that its text is a
/// number that Rust's `f64` parser accepts. Gives the text, the index after it and the
/// position there.
pub open spec fn spec_lex_number_token(s: Seq<char>, i: int, at: Position) -> Result<
    (Seq<char>, int, Position),
    SpecLexError,
> {
    match spec_lex_number(s, i, at, Seq::empty(), false, false, false) {
        Ok((text, j, p)) => if is_float_literal(text) {
            Ok((text, j, p))
        } else {
            Err(SpecLexError::InvalidNumber { text })
        },
        Err(e) => Err(e),
    }
}

/// Whether a value may come right after `tokens`: at the start, or after `,`, `:`, `{`
/// or `[`.
pub open spec fn accepts_value(tokens: Seq<SpecToken>) -> bool {
    ||| tokens.len() == 0
    ||| tokens.last() is Comma
    ||| tokens.last() is Colon
    ||| tokens.last() is BraceCurlyOpen
    ||| tokens.last() is BracketSquareOpen
}

/// Whether `tokens` ends with a comma.
pub open spec fn ends_with_comma(tokens: Seq<SpecToken>) -> bool {
    tokens.len() > 0 && tokens.last() is Comma
}

/// A string literal that is read whole ends past where it starts.
pub proof fn lemma_lex_string_advances(
    s: Seq<char>,
    i: int,
    at: Position,
    text: Seq<char>,
)
    requires
        0 <= i,
    ensures
        spec_lex_string(s, i, at, text) matches Ok((_, j, _)) ==> i < j <= s.len(),
    decreases s.len() - i,
{
    if 0 <= i < s.len() {
        let c = s[i];
        if c == '\\' && i + 1 < s.len() {
            let e = s[i + 1];
            match simple_escape(e) {
                Some(d) => lemma_lex_string_advances(
                    s,
                    i + 2,
                    at.spec_next_column().spec_next_column(),
                    text.push(d),
                ),
                None => if e == 'u' {
                    let p1 = at.spec_next_column();
                    if let Ok((code, p2)) = spec_unicode_escape(s, i + 2, 0, 0, p1) {
                        lemma_unicode_escape_reads_four(s, i + 2, 0, 0, at.spec_next_column());
                        if is_scalar_value(code) {
                            let p3 = p2.spec_next_column();
                            lemma_lex_string_advances(s, i + 6, p3, text.push(code as char));
                        }
                    }
                },
            }
        } else if c != '"' && c != '\\' && !(c == '\n' || c == '\r' || c == '\t')
            && !is_control_char(c) {
            lemma_lex_string_advances(s, i + 1, at.spec_next_column(), text.push(c));
        }
    }
}

/// The run of letters that starts at `s[i]` ends between `i` and the end of `s`.
pub proof fn lemma_alphabetic_run_bounds(s: Seq<char>, k: Seq<bool>, i: int)
    requires
        0 <= i <= s.len(),
    ensures
        i <= alphabetic_run_end(s, k, i) <= s.len(),
    decreases s.len() - i,
{
    if 0 <= i < s.len() && k[i] {
        lemma_alphabetic_run_bounds(s, k, i + 1);
    }
}

/// A number that is read ends between where it starts and the end of the input.
pub proof fn lemma_lex_number_bounds(
    s: Seq<char>,
    i: int,
    at: Position,
    text: Seq<char>,
    has_decimal: bool,
    has_exponent: bool,
    after_minus: bool,
)
    requires
        0 <= i <= s.len(),
    ensures
        spec_lex_number(s, i, at, text, has_decimal, has_exponent, after_minus) matches Ok(
            (_, j, _),
        ) ==> i <= j <= s.len(),
    decreases s.len() - i,
{
    if i < s.len() {
        let c = s[i];
        let next = at.spec_next_column();
        if is_digit(c) {
            lemma_lex_number_bounds(s, i + 1, next, text.push(c), has_decimal, has_exponent, false);
        } else if c == '.' && !has_decimal && !has_exponent {
            lemma_lex_number_bounds(s, i + 1, next, text.push(c), true, has_exponent, false);
        } else if c == '-' && text.len() == 0 {
            lemma_lex_number_bounds(s, i + 1, next, text.push(c), has_decimal, has_exponent, true);
        } else if (c == '+' || c == '-') && has_exponent && after_minus {
            lemma_lex_number_bounds(s, i + 1, next, text.push(c), has_decimal, has_exponent, false);
        } else if (c == 'e' || c == 'E') && !has_exponent {
            lemma_lex_number_bounds(s, i + 1, next, text.push(c), has_decimal, true, true);
        }
    }
}

/// Splits `s` into tokens from `s[i]` on, at position `at`, after the tokens `tokens`;
/// `k` says which characters of `s` are letters.
pub open spec fn spec_lex_tokens(
    s: Seq<char>,
    k: Seq<bool>,
    i: int,
    at: Position,
    tokens: Seq<SpecToken>,
) -> Result<Seq<SpecToken>, SpecLexError>
    decreases s.len() - i,
{
    if i < 0 || i >= s.len() {
        Ok(tokens)
    } else {
        let c = s[i];
        let next = at.spec_next_column();
        if c == '{' {
            spec_lex_tokens(s, k, i + 1, next, tokens.push(SpecToken::BraceCurlyOpen))
        } else if c == '}' {
            if ends_with_comma(tokens) {
                Err(SpecLexError::TrailingComma)
            } else {
                spec_lex_tokens(s, k, i + 1, next, tokens.push(SpecToken::BraceCurlyClose))
            }
        } else if c == '[' {
            spec_lex_tokens(s, k, i + 1, next, tokens.push(SpecToken::BracketSquareOpen))
        } else if c == ']' {
            if ends_with_comma(tokens) {
                Err(SpecLexError::TrailingComma)
            } else {
                spec_lex_tokens(s, k, i + 1, next, tokens.push(SpecToken::BracketSquareClose))
            }
        } else if c == ',' {
            if ends_with_comma(tokens) {
                Err(SpecLexError::TrailingComma)
            } else {
                spec_lex_tokens(s, k, i + 1, next, tokens.push(SpecToken::Comma))
            }
        } else if c == ':' {
            if ends_with_comma(tokens) {
                Err(SpecLexError::TrailingComma)
            } else {
                spec_lex_tokens(s, k, i + 1, next, tokens.push(SpecToken::Colon))
            }
        } else if c == '"' || c == 't' || c == 'f' || c == 'n' || is_digit(c) || c == '-' {
            if !accepts_value(tokens) {
                Err(SpecLexError::UnexpectedValue { after: tokens.last() })
            } else if c == '"' {
                match spec_lex_string(s, i + 1, at, Seq::empty()) {
                    Ok((text, j, p)) => {
                        proof {
                            lemma_lex_string_advances(s, i + 1, at, Seq::empty());
                        }
                        spec_lex_tokens(s, k, j, p, tokens.push(SpecToken::Str(text)))
                    },
                    Err(e) => Err(e),
                }
            } else if c == 't' || c == 'f' || c == 'n' {
                match spec_lex_keyword(s, k, i, at) {
                    Ok((t, j, p)) => {
                        proof {
                            lemma_alphabetic_run_bounds(s, k, i);
                            let word = s.subrange(i, alphabetic_run_end(s, k, i));
                            assert(word.len() > 0) by {
                                if word.len() == 0 {
                                    assert(word =~= Seq::<char>::empty());
                                }
                            }
                        }
                        spec_lex_tokens(s, k, j, p, tokens.push(t))
                    },
                    Err(e) => Err(e),
                }
            } else {
                match spec_lex_number_token(s, i, at) {
                    Ok((text, j, p)) => {
                        proof {
                            lemma_lex_number_bounds(
                                s,
                                i + 1,
                                next,
                                Seq::empty().push(c),
                                false,
                                false,
                                c == '-',
                            );
                        }
                        spec_lex_tokens(s, k, j, p, tokens.push(SpecToken::Num(text)))
                    },
                    Err(e) => Err(e),
                }
            }
        } else if is_white_space(c) {
            if c == '\n' {
                spec_lex_tokens(s, k, i + 1, at.spec_next_row(), tokens)
            } else {
                spec_lex_tokens(s, k, i + 1, next, tokens)
            }
        } else {
            Err(SpecLexError::UnexpectedCharacter { found: c, at })
        }
    }
}

/// The tokens of JSON text `s`, or why it has none.
pub open spec fn spec_tokenize(s: Seq<char>) -> Result<Seq<SpecToken>, SpecLexError> {
    spec_tokenize_marked(s, letters_of(s))
}

/// The tokens of JSON text `s` of which `k` says which characters are letters, or why it has none.
pub open spec fn spec_tokenize_marked(s: Seq<char>, k: Seq<bool>) -> Result<
    Seq<SpecToken>,
    SpecLexError,
> {
    spec_lex_tokens(s, k, 0, Position { row: 1, column: 1 }, Seq::empty())
}

/// Whether `t` is a token that stands for a whole value by itself.
pub open spec fn is_scalar_token(t: SpecToken) -> bool {
    t is Str || t is Num || t is True || t is False || t is Null
}

/// Whether `t` is a token that may not follow a comma.
pub open spec fn is_closing_token(t: SpecToken) -> bool {
    t is BraceCurlyClose || t is BracketSquareClose || t is Comma || t is Colon
}

/// Whether every token of `tokens` stands where the tokenizer lets it stand: each scalar at
/// the start or after `,`, `:`, `{` or `[`, and no `}`, `]`, `,` or `:` after a comma.
pub open spec fn well_placed(tokens: Seq<SpecToken>) -> bool {
    forall|k: int|
        0 <= k < tokens.len() ==> {
            &&& is_scalar_token(#[trigger] tokens[k]) ==> accepts_value(tokens.take(k))
            &&& is_closing_token(tokens[k]) ==> !ends_with_comma(tokens.take(k))
        }
}

/// Whether the text of every number token of `tokens` is one that Rust's `f64` parser accepts.
pub open spec fn numbers_parse(tokens: Seq<SpecToken>) -> bool {
    forall|k: int|
        0 <= k < tokens.len() && (#[trigger] tokens[k]) is Num ==> is_float_literal(
            tokens[k]->Num_0,
        )
}

/// Appending a token that may stand after `tokens` keeps them well placed, with parsable numbers.
proof fn lemma_push_keeps_shape(tokens: Seq<SpecToken>, t: SpecToken)
    requires
        well_placed(tokens),
        numbers_parse(tokens),
        is_scalar_token(t) ==> accepts_value(tokens),
        is_closing_token(t) ==> !ends_with_comma(tokens),
        t is Num ==> is_float_literal(t->Num_0),
    ensures
        well_placed(tokens.push(t)),
        numbers_parse(tokens.push(t)),
{
    let u = tokens.push(t);
    assert(u.take(tokens.len() as int) =~= tokens);
    assert forall|k: int| 0 <= k < tokens.len() implies u.take(k) == tokens.take(k) by {
        assert(u.take(k) =~= tokens.take(k));
    }
    assert forall|k: int| 0 <= k < u.len() implies {
        &&& is_scalar_token(#[trigger] u[k]) ==> accepts_value(u.take(k))
        &&& is_closing_token(u[k]) ==> !ends_with_comma(u.take(k))
    } by {
        if k < tokens.len() {
            assert(u[k] == tokens[k]);
        }
    }
    assert forall|k: int|
        0 <= k < u.len() && (#[trigger] u[k]) is Num implies is_float_literal(u[k]->Num_0) by {
        if k < tokens.len() {
            assert(u[k] == tokens[k]);
        }
    }
}

/// What the tokenizer gives from `s[i]` on keeps the tokens well placed, with parsable numbers.
proof fn lemma_lex_tokens_shape(
    s: Seq<char>,
    k: Seq<bool>,
    i: int,
    at: Position,
    tokens: Seq<SpecToken>,
)
    requires
        well_placed(tokens),
        numbers_parse(tokens),
    ensures
        spec_lex_tokens(s, k, i, at, tokens) matches Ok(result) ==> well_placed(result)
            && numbers_parse(result),
    decreases s.len() - i,
{
    if 0 <= i < s.len() {
        let c = s[i];
        let next = at.spec_next_column();
        if c == '{' {
            lemma_push_keeps_shape(tokens, SpecToken::BraceCurlyOpen);
            lemma_lex_tokens_shape(s, k, i + 1, next, tokens.push(SpecToken::BraceCurlyOpen));
        } else if c == '}' {
            if !ends_with_comma(tokens) {
                lemma_push_keeps_shape(tokens, SpecToken::BraceCurlyClose);
                lemma_lex_tokens_shape(s, k, i + 1, next, tokens.push(SpecToken::BraceCurlyClose));
            }
        } else if c == '[' {
            lemma_push_keeps_shape(tokens, SpecToken::BracketSquareOpen);
            lemma_lex_tokens_shape(s, k, i + 1, next, tokens.push(SpecToken::BracketSquareOpen));
        } else if c == ']' {
            if !ends_with_comma(tokens) {
                lemma_push_keeps_shape(tokens, SpecToken::BracketSquareClose);
                let pushed = tokens.push(SpecToken::BracketSquareClose);
                lemma_lex_tokens_shape(s, k, i + 1, next, pushed);
            }
        } else if c == ',' {
            if !ends_with_comma(tokens) {
                lemma_push_keeps_shape(tokens, SpecToken::Comma);
                lemma_lex_tokens_shape(s, k, i + 1, next, tokens.push(SpecToken::Comma));
            }
        } else if c == ':' {
            if !ends_with_comma(tokens) {
                lemma_push_keeps_shape(tokens, SpecToken::Colon);
                lemma_lex_tokens_shape(s, k, i + 1, next, tokens.push(SpecToken::Colon));
            }
        } else if c == '"' || c == 't' || c == 'f' || c == 'n' || is_digit(c) || c == '-' {
            if accepts_value(tokens) {
                if c == '"' {
                    if let Ok((text, j, p)) = spec_lex_string(s, i + 1, at, Seq::empty()) {
                        lemma_lex_string_advances(s, i + 1, at, Seq::empty());
                        lemma_push_keeps_shape(tokens, SpecToken::Str(text));
                        lemma_lex_tokens_shape(s, k, j, p, tokens.push(SpecToken::Str(text)));
                    }
                } else if c == 't' || c == 'f' || c == 'n' {
                    if let Ok((t, j, p)) = spec_lex_keyword(s, k, i, at) {
                        lemma_alphabetic_run_bounds(s, k, i);
                        let word = s.subrange(i, alphabetic_run_end(s, k, i));
                        assert(word.len() > 0) by {
                            if word.len() == 0 {
                                assert(word =~= Seq::<char>::empty());
                            }
                        }
                        lemma_push_keeps_shape(tokens, t);
                        lemma_lex_tokens_shape(s, k, j, p, tokens.push(t));
                    }
                } else {
                    if let Ok((text, j, p)) = spec_lex_number_token(s, i, at) {
                        let first = Seq::empty().push(c);
                        lemma_lex_number_bounds(s, i + 1, next, first, false, false, c == '-');
                        lemma_push_keeps_shape(tokens, SpecToken::Num(text));
                        lemma_lex_tokens_shape(s, k, j, p, tokens.push(SpecToken::Num(text)));
                    }
                }
            }
        } else if is_white_space(c) {
            if c == '\n' {
                lemma_lex_tokens_shape(s, k, i + 1, at.spec_next_row(), tokens);
            } else {
                lemma_lex_tokens_shape(s, k, i + 1, next, tokens);
            }
        }
    }
}

/// The tokenizer's promises on what it gives: each string, number and keyword stands at the
/// start or after `,`, `:`, `{` or `[`; no `}`, `]`, `,` or `:` follows a comma; and the
/// text of each number is one that Rust's `f64` parser accepts.
pub proof fn lemma_tokenize_shape(s: Seq<char>, k: Seq<bool>)
    ensures
        spec_tokenize_marked(s, k) matches Ok(tokens) ==> well_placed(tokens) && numbers_parse(
            tokens,
        ),
{
    lemma_lex_tokens_shape(s, k, 0, Position { row: 1, column: 1 }, Seq::empty());
}

// ---------------------------------------------------------------------------------------
// The tokenizer.
// ---------------------------------------------------------------------------------------

/// Reads the four hexadecimal digits of a `\u` escape that start at `chars[start]`; the
/// position moves one column per digit read. Gives the code they spell.
fn parse_unicode_escape(chars: &Vec<char>, start: usize, position: &mut Position) -> (r: Result<
    u32,
    LexError,
>)
    requires
        start <= chars.len(),
        old(position).column + (line_end(chars@, start as int) - start) <= i32::MAX,
    ensures
        match spec_unicode_escape(chars@, start as int, 0, 0, *old(position)) {
            Ok((code, p)) => {
                &&& r == Ok::<u32, LexError>(code as u32)
                &&& *final(position) == p
                &&& 0 <= code < 0x10000
                &&& p.row == old(position).row
                &&& p.column == old(position).column + 4
                &&& start + 4 <= line_end(chars@, start as int)
            },
            Err(e) => r matches Err(err) && err@ == e,
        },
{
    proof {
        lemma_line_end(chars@, start as int);
    }
    let mut value: u32 = 0;
    let mut k: usize = 0;
    while k < 4
        invariant
            k <= 4,
            start <= chars.len(),
            value < pow16(k as int),
            position.row == old(position).row,
            position.column == old(position).column + k,
            old(position).column + (line_end(chars@, start as int) - start) <= i32::MAX,
            start + k <= line_end(chars@, start as int) <= chars.len(),
            line_end(chars@, start as int) < chars.len() ==> chars@[line_end(
                chars@,
                start as int,
            )] == '\n',
            spec_unicode_escape(chars@, start as int, k as int, value as int, *position)
                == spec_unicode_escape(chars@, start as int, 0, 0, *old(position)),
        decreases 4 - k,
    {
        if k >= chars.len() - start {
            return Err(LexError::IncompleteUnicodeEscape { at: *position });
        }
        match hex_digit(chars[start + k]) {
            Some(d) => {
                assert(value * 16 + d < pow16(k + 1)) by (nonlinear_arith)
                    requires
                        value < pow16(k as int),
                        d < 16,
                        pow16(k + 1) == pow16(k as int) * 16,
                ;
                value = value * 16 + d;
                position.next_column();
                k = k + 1;
            },
            None => {
                return Err(LexError::InvalidUnicodeEscape { at: *position });
            },
        }
    }
    Ok(value)
}

/// Reads the rest of a string literal whose opening quote has been read, from
/// `chars[*index]` on; moves `index` past the closing quote and `position` along.
/// Gives the text that the literal holds, its escapes resolved.
fn parse_string(chars: &Vec<char>, index: &mut usize, position: &mut Position) -> (r: Result<
    String,
    LexError,
>)
    requires
        *old(index) <= chars.len(),
        old(position).column + (line_end(chars@, *old(index) as int) - *old(index)) <= i32::MAX,
    ensures
        match spec_lex_string(chars@, *old(index) as int, *old(position), Seq::empty()) {
            Ok((text, j, p)) => {
                &&& r matches Ok(t) && t@ == text
                &&& *final(index) == j
                &&& *final(position) == p
                &&& p.row == old(position).row
                &&& old(position).column <= p.column <= old(position).column + (j - *old(index))
                &&& j <= line_end(chars@, *old(index) as int)
            },
            Err(e) => r matches Err(err) && err@ == e,
        },
{
    let ghost s = chars@;
    let ghost start = *index as int;
    let ghost p0 = *position;
    proof {
        lemma_line_end(s, start);
    }
    let mut result_string = String::new();
    while *index < chars.len()
        invariant
            start <= *index <= chars.len(),
            start == *old(index),
            p0 == *old(position),
            s == chars@,
            position.row == p0.row,
            p0.column <= position.column <= p0.column + (*index - start),
            p0.column + (line_end(s, start) - start) <= i32::MAX,
            *index <= line_end(s, start) <= s.len(),
            line_end(s, start) < s.len() ==> s[line_end(s, start)] == '\n',
            spec_lex_string(s, *index as int, *position, result_string@) == spec_lex_string(
                s,
                start,
                p0,
                Seq::empty(),
            ),
        decreases chars.len() - *index,
    {
        let c = chars[*index];
        *index = *index + 1;
        if c == '"' {
            position.next_column();
            return Ok(result_string);
        } else if c == '\\' {
            position.next_column();
            if *index < chars.len() {
                let escaped = chars[*index];
                *index = *index + 1;
                if escaped == '"' {
                    result_string.push('"');
                } else if escaped == '\\' {
                    result_string.push('\\');
                } else if escaped == '/' {
                    result_string.push('/');
                } else if escaped == 'b' {
                    result_string.push('\u{0008}');
                } else if escaped == 'f' {
                    result_string.push('\u{000C}');
                } else if escaped == 'n' {
                    result_string.push('\n');
                } else if escaped == 'r' {
                    result_string.push('\r');
                } else if escaped == 't' {
                    result_string.push('\t');
                } else if escaped == 'u' {
                    let ghost p1 = *position;
                    proof {
                        lemma_same_line(s, start, *index as int);
                    }
                    let code = match parse_unicode_escape(chars, *index, position) {
                        Ok(code) => code,
                        Err(err) => {
                            return Err(err);
                        },
                    };
                    proof {
                        lemma_unicode_escape_reads_four(s, *index as int, 0, 0, p1);
                    }
                    match char_from_code(code) {
                        Some(unicode_char) => {
                            result_string.push(unicode_char);
                            *index = *index + 4;
                        },
                        None => {
                            return Err(LexError::InvalidCodePoint { at: *position });
                        },
                    }
                } else {
                    return Err(LexError::InvalidEscape { found: escaped, at: *position });
                }
                position.next_column();
            } else {
                return Err(LexError::UnterminatedEscape { at: *position });
            }
        } else if c == '\n' || c == '\r' || c == '\t' {
            return Err(LexError::UnescapedControl { at: *position });
        } else if is_control(c) {
            return Err(LexError::UnescapedControlCode { code: c as u32, at: *position });
        } else {
            result_string.push(c);
            position.next_column();
        }
    }
    Err(LexError::UnterminatedString { at: *position })
}

/// Reads the run of letters that starts at `chars[*index]` as one of the keywords `true`,
/// `false` and `null`; moves `index` past the run and `position` along.
fn parse_keyword(
    chars: &Vec<char>,
    marks: &Vec<bool>,
    index: &mut usize,
    position: &mut Position,
) -> (r: Result<Token, LexError>)
    requires
        *old(index) <= chars.len(),
        marks.len() == chars.len(),
        old(position).column + (line_end(chars@, *old(index) as int) - *old(index)) <= i32::MAX,
        forall|q: int| 0 <= q < chars.len() && chars@[q] == '\n' ==> !marks@[q],
    ensures
        match spec_lex_keyword(chars@, marks@, *old(index) as int, *old(position)) {
            Ok((t, j, p)) => {
                &&& r matches Ok(tok) && tok@ == t
                &&& *final(index) == j
                &&& *final(position) == p
                &&& p.row == old(position).row
                &&& old(position).column <= p.column <= old(position).column + (j - *old(index))
                &&& j <= line_end(chars@, *old(index) as int)
            },
            Err(e) => r matches Err(err) && err@ == e,
        },
        *final(index) == alphabetic_run_end(chars@, marks@, *old(index) as int),
        *final(position) == advanced(*old(position), *final(index) - *old(index)),
        *final(index) <= line_end(chars@, *old(index) as int),
{
    let ghost s = chars@;
    let ghost k = marks@;
    let ghost start = *index as int;
    let ghost p0 = *position;
    proof {
        lemma_line_end(s, start);
    }
    let mut letters: Vec<char> = Vec::new();
    let mut word = String::new();
    loop
        invariant
            start <= *index <= chars.len(),
            start == *old(index),
            p0 == *old(position),
            s == chars@,
            k == marks@,
            marks.len() == chars.len(),
            position.row == p0.row,
            position.column == p0.column + (*index - start),
            p0.column + (line_end(s, start) - start) <= i32::MAX,
            *index <= line_end(s, start) <= s.len(),
            line_end(s, start) < s.len() ==> s[line_end(s, start)] == '\n',
            letters@ == s.subrange(start, *index as int),
            word@ == letters@,
            alphabetic_run_end(s, k, *index as int) == alphabetic_run_end(s, k, start),
            forall|q: int| 0 <= q < s.len() && s[q] == '\n' ==> !k[q],
        ensures
            *index <= line_end(s, start),
            start <= *index <= chars.len(),
            position.row == p0.row,
            position.column == p0.column + (*index - start),
            letters@ == s.subrange(start, *index as int),
            word@ == letters@,
            *index as int == alphabetic_run_end(s, k, start),
        decreases chars.len() - *index,
    {
        if *index >= chars.len() {
            break;
        }
        let c = chars[*index];
        if !marks[*index] {
            break;
        }
        letters.push(c);
        word.push(c);
        *index = *index + 1;
        position.next_column();
    }
    let ghost j = *index as int;
    assert(*position == advanced(p0, j - start));
    let n = letters.len();
    if n == 4 && letters[0] == 't' && letters[1] == 'r' && letters[2] == 'u' && letters[3] == 'e' {
        assert(letters@ =~= seq!['t', 'r', 'u', 'e']);
        Ok(Token::True)
    } else if n == 5 && letters[0] == 'f' && letters[1] == 'a' && letters[2] == 'l' && letters[3]
        == 's' && letters[4] == 'e' {
        assert(letters@ =~= seq!['f', 'a', 'l', 's', 'e']);
        Ok(Token::False)
    } else if n == 4 && letters[0] == 'n' && letters[1] == 'u' && letters[2] == 'l' && letters[3]
        == 'l' {
        assert(letters@ =~= seq!['n', 'u', 'l', 'l']);
        Ok(Token::Null)
    } else {
        proof {
            lemma_same_letters(letters@, seq!['t', 'r', 'u', 'e']);
            lemma_same_letters(letters@, seq!['f', 'a', 'l', 's', 'e']);
            lemma_same_letters(letters@, seq!['n', 'u', 'l', 'l']);
        }
        Err(LexError::UnknownKeyword { word, at: *position })
    }
}

/// Reads the number that starts at `chars[*index]`; moves `index` past it and `position`
/// along. Gives its text, which Rust's `f64` parser accepts.
fn parse_numbers(chars: &Vec<char>, index: &mut usize, position: &mut Position) -> (r: Result<
    String,
    LexError,
>)
    requires
        *old(index) <= chars.len(),
        old(position).column + (line_end(chars@, *old(index) as int) - *old(index)) <= i32::MAX,
    ensures
        match spec_lex_number_token(chars@, *old(index) as int, *old(position)) {
            Ok((text, j, p)) => {
                &&& r matches Ok(t) && t@ == text
                &&& *final(index) == j
                &&& *final(position) == p
                &&& p.row == old(position).row
                &&& old(position).column <= p.column <= old(position).column + (j - *old(index))
                &&& j <= line_end(chars@, *old(index) as int)
            },
            Err(e) => r matches Err(err) && err@ == e,
        },
{
    let ghost s = chars@;
    let ghost start = *index as int;
    let ghost p0 = *position;
    proof {
        lemma_line_end(s, start);
    }
    let mut digits: Vec<char> = Vec::new();
    let mut result_number = String::new();
    let mut has_decimal = false;
    let mut has_exponent = false;
    let mut after_minus = false;
    loop
        invariant
            start <= *index <= chars.len(),
            start == *old(index),
            p0 == *old(position),
            s == chars@,
            position.row == p0.row,
            position.column == p0.column + (*index - start),
            p0.column + (line_end(s, start) - start) <= i32::MAX,
            *index <= line_end(s, start) <= s.len(),
            line_end(s, start) < s.len() ==> s[line_end(s, start)] == '\n',
            result_number@ == digits@,
            spec_lex_number(
                s,
                *index as int,
                *position,
                digits@,
                has_decimal,
                has_exponent,
                after_minus,
            ) == spec_lex_number(s, start, p0, Seq::empty(), false, false, false),
        ensures
            start <= *index <= chars.len(),
            *index <= line_end(s, start),
            position.row == p0.row,
            position.column == p0.column + (*index - start),
            result_number@ == digits@,
            spec_lex_number(s, start, p0, Seq::empty(), false, false, false) == Ok::<
                _,
                SpecLexError,
            >((digits@, *index as int, *position)),
        decreases chars.len() - *index,
    {
        if *index >= chars.len() {
            break;
        }
        let c = chars[*index];
        if '0' <= c && c <= '9' {
            let zero = digits.len() == 1 && digits[0] == '0';
            let minus_zero = digits.len() == 2 && digits[0] == '-' && digits[1] == '0';
            proof {
                if zero {
                    assert(digits@ =~= seq!['0']);
                }
                if digits@ == seq!['0'] {
                    assert(digits@[0] == seq!['0'][0]);
                }
                if minus_zero {
                    assert(digits@ =~= seq!['-', '0']);
                }
                if digits@ == seq!['-', '0'] {
                    assert(digits@[0] == seq!['-', '0'][0] && digits@[1] == seq!['-', '0'][1]);
                }
            }
            if (zero || minus_zero) && c != '0' {
                return Err(LexError::LeadingZeros { at: *position });
            }
            after_minus = false;
        } else if c == '.' && !has_decimal && !has_exponent {
            has_decimal = true;
            after_minus = false;
        } else if c == '-' && digits.len() == 0 {
            after_minus = true;
        } else if (c == '+' || c == '-') && has_exponent && after_minus {
            after_minus = false;
        } else if (c == 'e' || c == 'E') && !has_exponent {
            has_exponent = true;
            after_minus = true;
        } else {
            break;
        }
        digits.push(c);
        result_number.push(c);
        *index = *index + 1;
        position.next_column();
    }
    if is_float_text(&digits) {
        Ok(result_number)
    } else {
        Err(LexError::InvalidNumber { text: result_number })
    }
}

/// Checks that a value may come right after `token_list`; if not, says after which token.
fn can_accept_value(token_list: &Vec<Token>) -> (r: Result<(), LexError>)
    ensures
        accepts_value(tokens_view(token_list@)) ==> r is Ok,
        !accepts_value(tokens_view(token_list@)) ==> (r matches Err(e) && e@
            == (SpecLexError::UnexpectedValue { after: tokens_view(token_list@).last() })),
{
    let n = token_list.len();
    if n > 0 {
        let last = &token_list[n - 1];
        assert(tokens_view(token_list@).last() == last@);
        match last {
            Token::Comma | Token::Colon | Token::BraceCurlyOpen | Token::BracketSquareOpen => {},
            _ => {
                return Err(LexError::UnexpectedValue { after: last.duplicate() });
            },
        }
    }
    Ok(())
}

/// Checks that `token_list` does not end with a comma.
fn cannot_follow_comma(token_list: &Vec<Token>) -> (r: Result<(), LexError>)
    ensures
        !ends_with_comma(tokens_view(token_list@)) ==> r is Ok,
        ends_with_comma(tokens_view(token_list@)) ==> (r matches Err(e) && e@
            == SpecLexError::TrailingComma),
{
    let n = token_list.len();
    if n > 0 {
        assert(tokens_view(token_list@).last() == token_list@[n - 1]@);
        if let Token::Comma = &token_list[n - 1] {
            return Err(LexError::TrailingComma);
        }
    }
    Ok(())
}

/// Whether the lines and columns of `text` can be counted in `i32`, as the tokenizer needs.
pub fn positions_fit(text: &str) -> (r: bool)
    ensures
        r == fits_positions(text@),
{
    let chars = chars_of(text);
    let ghost s = chars@;
    let mut newlines: usize = 0;
    let mut line_start: usize = 0;
    let mut i: usize = 0;
    while i < chars.len()
        invariant
            s == chars@,
            s == text@,
            line_start <= i <= s.len(),
            newlines == newlines_before(s, i as int),
            newlines < i32::MAX,
            line_start == 0 || s[line_start - 1] == '\n',
            forall|q: int| line_start <= q < i ==> s[q] != '\n',
            i - line_start < i32::MAX,
            forall|j: int|
                0 <= j < line_start && (j == 0 || s[j - 1] == '\n') ==> #[trigger] line_end(s, j)
                    - j < i32::MAX,
        decreases s.len() - i,
    {
        if chars[i] == '\n' {
            proof {
                lemma_line_end(s, line_start as int);
                assert forall|j: int|
                    0 <= j < i + 1 && (j == 0 || s[j - 1] == '\n') implies #[trigger] line_end(
                    s,
                    j,
                ) - j < i32::MAX by {
                    if j > line_start {
                        assert(s[j - 1] != '\n');
                    } else if j == line_start {
                        assert(line_end(s, j) == i);
                    }
                }
            }
            newlines = newlines + 1;
            if newlines >= 2147483647 {
                proof {
                    lemma_newlines_grow(s, i + 1, s.len() as int);
                }
                return false;
            }
            line_start = i + 1;
        } else if i + 1 - line_start >= 2147483647 {
            proof {
                lemma_line_end(s, line_start as int);
                if line_end(s, line_start as int) <= i {
                    assert(s[line_end(s, line_start as int)] != '\n');
                }
                assert(line_end(s, line_start as int) - line_start >= i32::MAX);
            }
            return false;
        }
        i = i + 1;
    }
    proof {
        lemma_line_end(s, line_start as int);
        if line_end(s, line_start as int) < s.len() {
            assert(s[line_end(s, line_start as int)] != '\n');
        }
        assert forall|j: int|
            0 <= j <= s.len() && (j == 0 || s[j - 1] == '\n') implies #[trigger] line_end(s, j) - j
            < i32::MAX by {
            if j > line_start {
                assert(s[j - 1] != '\n');
            }
        }
    }
    true
}

/// Splits JSON text into tokens.
///
/// White space between tokens is skipped. A string, number or keyword may only come at the
/// start or after `,`, `:`, `{` or `[`; no `}`, `]`, `,` or `:` may follow a comma. The
/// error says at which line and column the tokenizer stood, where the input has one.
pub fn tokenize(json_string: String) -> (r: Result<Vec<Token>, LexError>)
    requires
        fits_positions(json_string@),
    ensures
        match spec_tokenize(json_string@) {
            Ok(tokens) => r matches Ok(v) && tokens_view(v@) == tokens,
            Err(e) => r matches Err(err) && err@ == e,
        },
{
    let chars = chars_of(json_string.as_str());
    let letters = mark_letters(&chars);
    assert(forall|q: int| 0 <= q < chars.len() && chars@[q] == '\n' ==> !letters@[q]);
    tokenize_chars(&chars, &letters)
}

/// Splits the characters `chars` of JSON text into tokens, as [`tokenize`] does, given the
/// letters among them marked in `marks`.
pub fn tokenize_chars(chars: &Vec<char>, marks: &Vec<bool>) -> (r: Result<
    Vec<Token>,
    LexError,
>)
    requires
        marks.len() == chars.len(),
        fits_positions(chars@),
        forall|q: int| 0 <= q < chars.len() && chars@[q] == '\n' ==> !marks@[q],
    ensures
        match spec_tokenize_marked(chars@, marks@) {
            Ok(tokens) => r matches Ok(v) && tokens_view(v@) == tokens,
            Err(e) => r matches Err(err) && err@ == e,
        },
{
    let ghost s = chars@;
    let ghost k = marks@;
    let mut token_list: Vec<Token> = Vec::new();
    let mut position = Position::new();
    let mut index: usize = 0;
    assert(line_end(s, 0) - 0 < i32::MAX);
    assert(tokens_view(token_list@) =~= Seq::<SpecToken>::empty());
    while index < chars.len()
        invariant
            s == chars@,
            k == marks@,
            marks.len() == chars.len(),
            fits_positions(s),
            forall|q: int| 0 <= q < s.len() && s[q] == '\n' ==> !k[q],
            index <= chars.len(),
            1 <= position.column,
            position.column + (line_end(s, index as int) - index) <= i32::MAX,
            position.row == 1 + newlines_before(s, index as int),
            spec_lex_tokens(s, k, index as int, position, tokens_view(token_list@))
                == spec_tokenize_marked(s, k),
        decreases chars.len() - index,
    {
        let ghost i0 = index as int;
        let ghost pos0 = position;
        let ghost toks0 = tokens_view(token_list@);
        let c = chars[index];
        proof {
            lemma_line_end(s, i0);
            if c != '\n' {
                lemma_same_line(s, i0, i0 + 1);
            }
        }
        if c == '{' || c == '}' || c == '[' || c == ']' || c == ',' || c == ':' {
            let token = if c == '{' {
                Token::BraceCurlyOpen
            } else if c == '[' {
                Token::BracketSquareOpen
            } else {
                match cannot_follow_comma(&token_list) {
                    Ok(()) => {},
                    Err(e) => {
                        return Err(e);
                    },
                }
                if c == '}' {
                    Token::BraceCurlyClose
                } else if c == ']' {
                    Token::BracketSquareClose
                } else if c == ',' {
                    Token::Comma
                } else {
                    Token::Colon
                }
            };
            token_list.push(token);
            index = index + 1;
            position.next_column();
            assert(tokens_view(token_list@) =~= toks0.push(token@));
        } else if c == '"' || c == 't' || c == 'f' || c == 'n' || ('0' <= c && c <= '9') || c
            == '-' {
            match can_accept_value(&token_list) {
                Ok(()) => {},
                Err(e) => {
                    return Err(e);
                },
            }
            let token = if c == '"' {
                index = index + 1;
                match parse_string(chars, &mut index, &mut position) {
                    Ok(string_token) => Token::String(string_token),
                    Err(e) => {
                        return Err(e);
                    },
                }
            } else if c == 't' || c == 'f' || c == 'n' {
                match parse_keyword(chars, marks, &mut index, &mut position) {
                    Ok(keyword_token) => keyword_token,
                    Err(e) => {
                        return Err(e);
                    },
                }
            } else {
                match parse_numbers(chars, &mut index, &mut position) {
                    Ok(number_token) => Token::Number(number_token),
                    Err(e) => {
                        return Err(e);
                    },
                }
            };
            proof {
                lemma_same_line(s, i0, index as int);
                if c == '"' {
                    lemma_lex_string_advances(s, i0 + 1, pos0, Seq::empty());
                } else if c == 't' || c == 'f' || c == 'n' {
                    lemma_alphabetic_run_bounds(s, k, i0);
                    let word = s.subrange(i0, alphabetic_run_end(s, k, i0));
                    assert(word.len() > 0) by {
                        if word.len() == 0 {
                            assert(word =~= Seq::<char>::empty());
                        }
                    }
                } else {
                    lemma_lex_number_bounds(
                        s,
                        i0 + 1,
                        pos0.spec_next_column(),
                        Seq::empty().push(c),
                        false,
                        false,
                        c == '-',
                    );
                }
            }
            token_list.push(token);
            assert(tokens_view(token_list@) =~= toks0.push(token@));
        } else if is_whitespace(c) {
            index = index + 1;
            if c == '\n' {
                proof {
                    lemma_newlines_grow(s, i0, s.len() as int);
                    assert(line_end(s, i0 + 1) - (i0 + 1) < i32::MAX);
                }
                position.next_row();
            } else {
                position.next_column();
            }
        } else {
            return Err(LexError::UnexpectedCharacter { found: c, at: position });
        }
    }
    Ok(token_list)
}

} // verus!

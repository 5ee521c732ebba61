use vstd::prelude::*;
use crate::chars::{
    hex_digit_value, is_digit, is_scalar_value, is_white_space, letters_of,
};
use crate::error::SpecLexError;
use crate::escapes::{escape_text, lemma_read_escaped};
use crate::lexer::{
    accepts_value, advanced, alphabetic_run_end, ends_with_comma, is_closing_token, is_scalar_token,
    lemma_alphabetic_run_bounds, lemma_lex_number_bounds, lemma_lex_string_advances,
    lemma_unicode_escape_reads_four, simple_escape, spec_lex_keyword, spec_lex_number,
    spec_lex_number_token, spec_lex_string, spec_lex_tokens, spec_tokenize, spec_tokenize_marked,
    spec_unicode_escape, well_placed,
};
use crate::position::Position;
use crate::token::SpecToken;

verus! {

// ---------------------------------------------------------------------------------------
// Where a read starts on the page changes only the positions that it reports.
// ---------------------------------------------------------------------------------------

/// What a read of one token gives, without the position where it ends.
spec fn read_part<T>(r: Result<(T, int, Position), SpecLexError>) -> Option<(T, int)> {
    match r {
        Ok((t, j, _)) => Some((t, j)),
        Err(_) => None,
    }
}

/// The tokens that a run of the tokenizer gives, if it succeeds.
spec fn tokens_part(r: Result<Seq<SpecToken>, SpecLexError>) -> Option<Seq<SpecToken>> {
    match r {
        Ok(t) => Some(t),
        Err(_) => None,
    }
}

/// The token of a punctuation character.
spec fn punctuation_token(c: char) -> SpecToken {
    if c == '{' {
        SpecToken::BraceCurlyOpen
    } else if c == '}' {
        SpecToken::BraceCurlyClose
    } else if c == '[' {
        SpecToken::BracketSquareOpen
    } else if c == ']' {
        SpecToken::BracketSquareClose
    } else if c == ',' {
        SpecToken::Comma
    } else {
        SpecToken::Colon
    }
}

/// Whether `c` is one of the six punctuation characters of JSON.
spec fn is_punctuation(c: char) -> bool {
    c == '{' || c == '}' || c == '[' || c == ']' || c == ',' || c == ':'
}

/// A `\u` escape reads the same code wherever it starts on the page.
proof fn lemma_escape_anywhere(
    s: Seq<char>,
    i: int,
    k: int,
    value: int,
    at1: Position,
    at2: Position,
)
    ensures
        spec_unicode_escape(s, i, k, value, at1) is Ok <==> spec_unicode_escape(
            s,
            i,
            k,
            value,
            at2,
        ) is Ok,
        spec_unicode_escape(s, i, k, value, at1) is Ok ==> spec_unicode_escape(
            s,
            i,
            k,
            value,
            at1,
        )->Ok_0.0 == spec_unicode_escape(s, i, k, value, at2)->Ok_0.0,
    decreases 4 - k,
{
    if k < 4 && 0 <= i + k < s.len() {
        if let Some(d) = hex_digit_value(s[i + k]) {
            lemma_escape_anywhere(
                s,
                i,
                k + 1,
                value * 16 + d,
                at1.spec_next_column(),
                at2.spec_next_column(),
            );
        }
    }
}

/// A string literal reads the same text, up to the same index, wherever it starts on the page.
proof fn lemma_string_anywhere(
    s: Seq<char>,
    i: int,
    at1: Position,
    at2: Position,
    text: Seq<char>,
)
    ensures
        read_part(spec_lex_string(s, i, at1, text)) == read_part(spec_lex_string(s, i, at2, text)),
    decreases s.len() - i,
{
    if 0 <= i < s.len() {
        let c = s[i];
        let p1 = at1.spec_next_column();
        let p2 = at2.spec_next_column();
        if c == '\\' && i + 1 < s.len() {
            let e = s[i + 1];
            match simple_escape(e) {
                Some(d) => lemma_string_anywhere(
                    s,
                    i + 2,
                    p1.spec_next_column(),
                    p2.spec_next_column(),
                    text.push(d),
                ),
                None => if e == 'u' {
                    lemma_escape_anywhere(s, i + 2, 0, 0, p1, p2);
                    match (
                        spec_unicode_escape(s, i + 2, 0, 0, p1),
                        spec_unicode_escape(s, i + 2, 0, 0, p2),
                    ) {
                        (Ok((code, q1)), Ok((_, q2))) => if is_scalar_value(code) {
                            lemma_unicode_escape_reads_four(s, i + 2, 0, 0, p1);
                            lemma_string_anywhere(
                                s,
                                i + 6,
                                q1.spec_next_column(),
                                q2.spec_next_column(),
                                text.push(code as char),
                            );
                        },
                        _ => {},
                    }
                },
            }
        } else if c != '"' && c != '\\' {
            lemma_string_anywhere(s, i + 1, p1, p2, text.push(c));
        }
    }
}

/// A number reads the same text, up to the same index, wherever it starts on the page.
proof fn lemma_number_anywhere(
    s: Seq<char>,
    i: int,
    at1: Position,
    at2: Position,
    text: Seq<char>,
    has_decimal: bool,
    has_exponent: bool,
    after_minus: bool,
)
    ensures
        read_part(spec_lex_number(s, i, at1, text, has_decimal, has_exponent, after_minus))
            == read_part(spec_lex_number(s, i, at2, text, has_decimal, has_exponent, after_minus)),
    decreases s.len() - i,
{
    if 0 <= i < s.len() {
        let c = s[i];
        let p1 = at1.spec_next_column();
        let p2 = at2.spec_next_column();
        if is_digit(c) {
            lemma_number_anywhere(s, i + 1, p1, p2, text.push(c), has_decimal, has_exponent, false);
        } else if c == '.' && !has_decimal && !has_exponent {
            lemma_number_anywhere(s, i + 1, p1, p2, text.push(c), true, has_exponent, false);
        } else if c == '-' && text.len() == 0 {
            lemma_number_anywhere(s, i + 1, p1, p2, text.push(c), has_decimal, has_exponent, true);
        } else if (c == '+' || c == '-') && has_exponent && after_minus {
            lemma_number_anywhere(s, i + 1, p1, p2, text.push(c), has_decimal, has_exponent, false);
        } else if (c == 'e' || c == 'E') && !has_exponent {
            lemma_number_anywhere(s, i + 1, p1, p2, text.push(c), has_decimal, true, true);
        }
    }
}

/// A number token ends past where it starts.
proof fn lemma_number_token_advances(s: Seq<char>, i: int, at: Position)
    requires
        0 <= i < s.len(),
        is_digit(s[i]) || s[i] == '-',
    ensures
        spec_lex_number_token(s, i, at) matches Ok((_, j, _)) ==> i < j <= s.len(),
{
    let c = s[i];
    lemma_lex_number_bounds(
        s,
        i + 1,
        at.spec_next_column(),
        Seq::empty().push(c),
        false,
        false,
        c == '-',
    );
}

/// A keyword that is read ends past where it starts.
proof fn lemma_keyword_advances(s: Seq<char>, k: Seq<bool>, i: int, at: Position)
    requires
        0 <= i <= s.len(),
    ensures
        spec_lex_keyword(s, k, i, at) matches Ok((_, j, _)) ==> i < j <= s.len(),
{
    lemma_alphabetic_run_bounds(s, k, i);
    let word = s.subrange(i, alphabetic_run_end(s, k, i));
    if word.len() == 0 {
        assert(word =~= Seq::<char>::empty());
    }
}

/// The tokenizer gives the same tokens, or fails, wherever it starts on the page.
proof fn lemma_tokens_anywhere(
    s: Seq<char>,
    k: Seq<bool>,
    i: int,
    at1: Position,
    at2: Position,
    tokens: Seq<SpecToken>,
)
    ensures
        tokens_part(spec_lex_tokens(s, k, i, at1, tokens)) == tokens_part(
            spec_lex_tokens(s, k, i, at2, tokens),
        ),
    decreases s.len() - i,
{
    if 0 <= i < s.len() {
        let c = s[i];
        let p1 = at1.spec_next_column();
        let p2 = at2.spec_next_column();
        if is_punctuation(c) {
            lemma_tokens_anywhere(s, k, i + 1, p1, p2, tokens.push(punctuation_token(c)));
        } else if c == '"' {
            lemma_string_anywhere(s, i + 1, at1, at2, Seq::empty());
            lemma_lex_string_advances(s, i + 1, at1, Seq::empty());
            match (
                spec_lex_string(s, i + 1, at1, Seq::empty()),
                spec_lex_string(s, i + 1, at2, Seq::empty()),
            ) {
                (Ok((text, j, q1)), Ok((_, _, q2))) => {
                    lemma_tokens_anywhere(s, k, j, q1, q2, tokens.push(SpecToken::Str(text)));
                },
                _ => {},
            }
        } else if c == 't' || c == 'f' || c == 'n' {
            lemma_keyword_advances(s, k, i, at1);
            match (spec_lex_keyword(s, k, i, at1), spec_lex_keyword(s, k, i, at2)) {
                (Ok((t, j, q1)), Ok((_, _, q2))) => {
                    lemma_tokens_anywhere(s, k, j, q1, q2, tokens.push(t));
                },
                _ => {},
            }
        } else if is_digit(c) || c == '-' {
            lemma_number_anywhere(s, i, at1, at2, Seq::empty(), false, false, false);
            lemma_number_token_advances(s, i, at1);
            match (spec_lex_number_token(s, i, at1), spec_lex_number_token(s, i, at2)) {
                (Ok((text, j, q1)), Ok((_, _, q2))) => {
                    lemma_tokens_anywhere(s, k, j, q1, q2, tokens.push(SpecToken::Num(text)));
                },
                _ => {},
            }
        } else if is_white_space(c) {
            if c == '\n' {
                lemma_tokens_anywhere(
                    s,
                    k,
                    i + 1,
                    at1.spec_next_row(),
                    at2.spec_next_row(),
                    tokens,
                );
            } else {
                lemma_tokens_anywhere(s, k, i + 1, p1, p2, tokens);
            }
        }
    }
}

// ---------------------------------------------------------------------------------------
// What follows a piece of text does not change how the tokens inside it are read.
// ---------------------------------------------------------------------------------------

/// Whether `c` can be part of the text of a number.
pub open spec fn is_number_char(c: char) -> bool {
    is_digit(c) || c == '.' || c == '-' || c == '+' || c == 'e' || c == 'E'
}

/// Whether the character `c`, a letter when `letter` holds, can end neither a number nor a
/// keyword, nor go on with one.
pub open spec fn separates(c: char, letter: bool) -> bool {
    !letter && !is_number_char(c)
}

/// Whether text `a` and text `b` set side by side keep the tokens on either side apart:
/// one of them is empty, or the last character of `a` or the first of `b` separates.
pub open spec fn kept_apart(
    a: Seq<char>,
    ka: Seq<bool>,
    b: Seq<char>,
    kb: Seq<bool>,
) -> bool {
    ||| a.len() == 0
    ||| b.len() == 0
    ||| separates(a.last(), ka.last())
    ||| separates(b[0], kb[0])
}

/// A `\u` escape read whole within `a` reads the same within `a + r`.
proof fn lemma_escape_in_prefix(
    a: Seq<char>,
    r: Seq<char>,
    i: int,
    k: int,
    value: int,
    at: Position,
)
    requires
        0 <= i,
        0 <= k,
    ensures
        spec_unicode_escape(a, i, k, value, at) is Ok ==> spec_unicode_escape(
            a + r,
            i,
            k,
            value,
            at,
        ) == spec_unicode_escape(a, i, k, value, at),
    decreases 4 - k,
{
    if k < 4 && i + k < a.len() {
        assert((a + r)[i + k] == a[i + k]);
        if let Some(d) = hex_digit_value(a[i + k]) {
            lemma_escape_in_prefix(a, r, i, k + 1, value * 16 + d, at.spec_next_column());
        }
    }
}

/// A string literal read whole within `a` reads the same within `a + r`.
proof fn lemma_string_in_prefix(
    a: Seq<char>,
    r: Seq<char>,
    i: int,
    at: Position,
    text: Seq<char>,
)
    requires
        0 <= i,
    ensures
        spec_lex_string(a, i, at, text) is Ok ==> spec_lex_string(a + r, i, at, text)
            == spec_lex_string(a, i, at, text),
    decreases a.len() - i,
{
    if i < a.len() {
        let s = a + r;
        assert(s[i] == a[i]);
        let c = a[i];
        let p1 = at.spec_next_column();
        if c == '\\' && i + 1 < a.len() {
            assert(s[i + 1] == a[i + 1]);
            let e = a[i + 1];
            match simple_escape(e) {
                Some(d) => lemma_string_in_prefix(a, r, i + 2, p1.spec_next_column(), text.push(d)),
                None => if e == 'u' {
                    lemma_escape_in_prefix(a, r, i + 2, 0, 0, p1);
                    if let Ok((code, p2)) = spec_unicode_escape(a, i + 2, 0, 0, p1) {
                        if is_scalar_value(code) {
                            lemma_unicode_escape_reads_four(a, i + 2, 0, 0, p1);
                            lemma_string_in_prefix(
                                a,
                                r,
                                i + 6,
                                p2.spec_next_column(),
                                text.push(code as char),
                            );
                        }
                    }
                },
            }
        } else if c != '"' && c != '\\' {
            lemma_string_in_prefix(a, r, i + 1, p1, text.push(c));
        }
    }
}

/// A number read within `a` reads the same within `a + r` where `r` does not go on with it,
/// and ends on a character of a number.
proof fn lemma_number_in_prefix(
    a: Seq<char>,
    r: Seq<char>,
    i: int,
    at: Position,
    text: Seq<char>,
    has_decimal: bool,
    has_exponent: bool,
    after_minus: bool,
)
    requires
        0 <= i <= a.len(),
    ensures
        spec_lex_number(a, i, at, text, has_decimal, has_exponent, after_minus) matches Ok(
            (_, j, _),
        ) ==> {
            &&& i <= j <= a.len()
            &&& j > i ==> is_number_char(a[j - 1])
            &&& (j < a.len() || r.len() == 0 || !is_number_char(r[0])) ==> spec_lex_number(
                a + r,
                i,
                at,
                text,
                has_decimal,
                has_exponent,
                after_minus,
            ) == spec_lex_number(a, i, at, text, has_decimal, has_exponent, after_minus)
        },
    decreases a.len() - i,
{
    let s = a + r;
    if i < a.len() {
        assert(s[i] == a[i]);
        let c = a[i];
        let next = at.spec_next_column();
        if is_digit(c) {
            let t = text.push(c);
            lemma_number_in_prefix(a, r, i + 1, next, t, has_decimal, has_exponent, false);
        } else if c == '.' && !has_decimal && !has_exponent {
            lemma_number_in_prefix(a, r, i + 1, next, text.push(c), true, has_exponent, false);
        } else if c == '-' && text.len() == 0 {
            let t = text.push(c);
            lemma_number_in_prefix(a, r, i + 1, next, t, has_decimal, has_exponent, true);
        } else if (c == '+' || c == '-') && has_exponent && after_minus {
            let t = text.push(c);
            lemma_number_in_prefix(a, r, i + 1, next, t, has_decimal, has_exponent, false);
        } else if (c == 'e' || c == 'E') && !has_exponent {
            lemma_number_in_prefix(a, r, i + 1, next, text.push(c), has_decimal, true, true);
        }
    } else if r.len() > 0 {
        assert(s[i] == r[0]);
    }
}

/// A run of letters within `a` is the same within `a + r` where `r` does not go on with it,
/// and ends on a letter.
proof fn lemma_run_in_prefix(
    a: Seq<char>,
    ka: Seq<bool>,
    r: Seq<char>,
    kr: Seq<bool>,
    i: int,
)
    requires
        ka.len() == a.len(),
        kr.len() == r.len(),
        0 <= i <= a.len(),
    ensures
        i <= alphabetic_run_end(a, ka, i) <= a.len(),
        alphabetic_run_end(a, ka, i) > i ==> ka[alphabetic_run_end(a, ka, i) - 1],
        alphabetic_run_end(a, ka, i) < a.len() || r.len() == 0 || !kr[0] ==> alphabetic_run_end(
            a + r,
            ka + kr,
            i,
        ) == alphabetic_run_end(a, ka, i),
    decreases a.len() - i,
{
    if i < a.len() {
        assert((ka + kr)[i] == ka[i]);
        if ka[i] {
            lemma_run_in_prefix(a, ka, r, kr, i + 1);
        }
    } else if r.len() > 0 {
        assert((ka + kr)[i] == kr[0]);
    }
}

/// Where the tokens of `a` are read without error and `r` keeps apart from `a`, the tokens of
/// `a + r` are those of `a`, followed by those read from where `r` starts.
proof fn lemma_tokens_in_prefix(
    a: Seq<char>,
    ka: Seq<bool>,
    r: Seq<char>,
    kr: Seq<bool>,
    i: int,
    at: Position,
    at2: Position,
    tokens: Seq<SpecToken>,
)
    requires
        ka.len() == a.len(),
        kr.len() == r.len(),
        0 <= i <= a.len(),
        spec_lex_tokens(a, ka, i, at, tokens) is Ok,
        kept_apart(a, ka, r, kr),
    ensures
        tokens_part(spec_lex_tokens(a + r, ka + kr, i, at, tokens)) == tokens_part(
            spec_lex_tokens(
                a + r,
                ka + kr,
                a.len() as int,
                at2,
                spec_lex_tokens(a, ka, i, at, tokens)->Ok_0,
            ),
        ),
    decreases a.len() - i,
{
    let s = a + r;
    let kk = ka + kr;
    if i == a.len() {
        lemma_tokens_anywhere(s, kk, i, at, at2, tokens);
    } else {
        assert(s[i] == a[i]);
        let c = a[i];
        let next = at.spec_next_column();
        if is_punctuation(c) {
            let t = punctuation_token(c);
            lemma_tokens_in_prefix(a, ka, r, kr, i + 1, next, at2, tokens.push(t));
        } else if c == '"' {
            lemma_string_in_prefix(a, r, i + 1, at, Seq::empty());
            lemma_lex_string_advances(a, i + 1, at, Seq::empty());
            if let Ok((text, j, p)) = spec_lex_string(a, i + 1, at, Seq::empty()) {
                lemma_tokens_in_prefix(a, ka, r, kr, j, p, at2, tokens.push(SpecToken::Str(text)));
            }
        } else if c == 't' || c == 'f' || c == 'n' {
            lemma_run_in_prefix(a, ka, r, kr, i);
            lemma_keyword_advances(a, ka, i, at);
            let j = alphabetic_run_end(a, ka, i);
            assert(s.subrange(i, j) =~= a.subrange(i, j));
            if let Ok((t, j, p)) = spec_lex_keyword(a, ka, i, at) {
                lemma_tokens_in_prefix(a, ka, r, kr, j, p, at2, tokens.push(t));
            }
        } else if is_digit(c) || c == '-' {
            lemma_number_in_prefix(a, r, i, at, Seq::empty(), false, false, false);
            lemma_number_token_advances(a, i, at);
            if let Ok((text, j, p)) = spec_lex_number_token(a, i, at) {
                lemma_tokens_in_prefix(a, ka, r, kr, j, p, at2, tokens.push(SpecToken::Num(text)));
            }
        } else if c == '\n' {
            lemma_tokens_in_prefix(a, ka, r, kr, i + 1, at.spec_next_row(), at2, tokens);
        } else {
            lemma_tokens_in_prefix(a, ka, r, kr, i + 1, next, at2, tokens);
        }
    }
}

// ---------------------------------------------------------------------------------------
// What comes before a piece of text does not change how the tokens inside it are read.
// ---------------------------------------------------------------------------------------

/// A read of one token, with the index where it ends moved `n` places on.
spec fn shifted<T>(r: Result<(T, int, Position), SpecLexError>, n: int) -> Result<
    (T, int, Position),
    SpecLexError,
> {
    match r {
        Ok((t, j, p)) => Ok((t, j + n, p)),
        Err(e) => Err(e),
    }
}

/// A `\u` escape reads the same after any text `p`.
proof fn lemma_escape_shift(
    p: Seq<char>,
    b: Seq<char>,
    j: int,
    k: int,
    value: int,
    at: Position,
)
    requires
        0 <= j,
        0 <= k,
    ensures
        spec_unicode_escape(p + b, p.len() + j, k, value, at) == spec_unicode_escape(
            b,
            j,
            k,
            value,
            at,
        ),
    decreases 4 - k,
{
    if k < 4 && j + k < b.len() {
        assert((p + b)[p.len() + j + k] == b[j + k]);
        if let Some(d) = hex_digit_value(b[j + k]) {
            lemma_escape_shift(p, b, j, k + 1, value * 16 + d, at.spec_next_column());
        }
    }
}

/// A string literal reads the same after any text `p`, its end moved by the length of `p`.
proof fn lemma_string_shift(
    p: Seq<char>,
    b: Seq<char>,
    j: int,
    at: Position,
    text: Seq<char>,
)
    requires
        0 <= j,
    ensures
        spec_lex_string(p + b, p.len() + j, at, text) == shifted(
            spec_lex_string(b, j, at, text),
            p.len() as int,
        ),
    decreases b.len() - j,
{
    if j < b.len() {
        let s = p + b;
        let n = p.len() as int;
        assert(s[n + j] == b[j]);
        let c = b[j];
        let p1 = at.spec_next_column();
        if c == '\\' {
            if j + 1 < b.len() {
                assert(s[n + j + 1] == b[j + 1]);
                let e = b[j + 1];
                match simple_escape(e) {
                    Some(d) => lemma_string_shift(p, b, j + 2, p1.spec_next_column(), text.push(d)),
                    None => if e == 'u' {
                        lemma_escape_shift(p, b, j + 2, 0, 0, p1);
                        if let Ok((code, p2)) = spec_unicode_escape(b, j + 2, 0, 0, p1) {
                            if is_scalar_value(code) {
                                lemma_unicode_escape_reads_four(b, j + 2, 0, 0, p1);
                                lemma_string_shift(
                                    p,
                                    b,
                                    j + 6,
                                    p2.spec_next_column(),
                                    text.push(code as char),
                                );
                            }
                        }
                    },
                }
            }
        } else if c != '"' {
            lemma_string_shift(p, b, j + 1, p1, text.push(c));
        }
    }
}

/// A number reads the same after any text `p`, its end moved by the length of `p`.
proof fn lemma_number_shift(
    p: Seq<char>,
    b: Seq<char>,
    j: int,
    at: Position,
    text: Seq<char>,
    has_decimal: bool,
    has_exponent: bool,
    after_minus: bool,
)
    requires
        0 <= j,
    ensures
        spec_lex_number(p + b, p.len() + j, at, text, has_decimal, has_exponent, after_minus)
            == shifted(
            spec_lex_number(b, j, at, text, has_decimal, has_exponent, after_minus),
            p.len() as int,
        ),
    decreases b.len() - j,
{
    if j < b.len() {
        assert((p + b)[p.len() + j] == b[j]);
        let c = b[j];
        let next = at.spec_next_column();
        if is_digit(c) {
            lemma_number_shift(p, b, j + 1, next, text.push(c), has_decimal, has_exponent, false);
        } else if c == '.' && !has_decimal && !has_exponent {
            lemma_number_shift(p, b, j + 1, next, text.push(c), true, has_exponent, false);
        } else if c == '-' && text.len() == 0 {
            lemma_number_shift(p, b, j + 1, next, text.push(c), has_decimal, has_exponent, true);
        } else if (c == '+' || c == '-') && has_exponent && after_minus {
            lemma_number_shift(p, b, j + 1, next, text.push(c), has_decimal, has_exponent, false);
        } else if (c == 'e' || c == 'E') && !has_exponent {
            lemma_number_shift(p, b, j + 1, next, text.push(c), has_decimal, true, true);
        }
    }
}

/// A run of letters is the same after any text `p`, moved by the length of `p`.
proof fn lemma_run_shift(
    p: Seq<char>,
    kp: Seq<bool>,
    b: Seq<char>,
    kb: Seq<bool>,
    j: int,
)
    requires
        kp.len() == p.len(),
        kb.len() == b.len(),
        0 <= j,
    ensures
        alphabetic_run_end(p + b, kp + kb, p.len() + j) == p.len() + alphabetic_run_end(b, kb, j),
    decreases b.len() - j,
{
    if j < b.len() {
        assert((kp + kb)[p.len() + j] == kb[j]);
        if kb[j] {
            lemma_run_shift(p, kp, b, kb, j + 1);
        }
    }
}

/// A keyword reads the same after any text `p`, its end moved by the length of `p`.
proof fn lemma_keyword_shift(
    p: Seq<char>,
    kp: Seq<bool>,
    b: Seq<char>,
    kb: Seq<bool>,
    j: int,
    at: Position,
)
    requires
        kp.len() == p.len(),
        kb.len() == b.len(),
        0 <= j <= b.len(),
    ensures
        spec_lex_keyword(p + b, kp + kb, p.len() + j, at) == shifted(
            spec_lex_keyword(b, kb, j, at),
            p.len() as int,
        ),
{
    lemma_run_shift(p, kp, b, kb, j);
    lemma_alphabetic_run_bounds(b, kb, j);
    let e = alphabetic_run_end(b, kb, j);
    let n = p.len() as int;
    assert((p + b).subrange(n + j, n + e) =~= b.subrange(j, e));
}

/// The tokens of `b` are read the same after any text `p`.
proof fn lemma_tokens_shift(
    p: Seq<char>,
    kp: Seq<bool>,
    b: Seq<char>,
    kb: Seq<bool>,
    j: int,
    at: Position,
    tokens: Seq<SpecToken>,
)
    requires
        kp.len() == p.len(),
        kb.len() == b.len(),
        0 <= j,
    ensures
        spec_lex_tokens(p + b, kp + kb, p.len() + j, at, tokens) == spec_lex_tokens(
            b,
            kb,
            j,
            at,
            tokens,
        ),
    decreases b.len() - j,
{
    if j < b.len() {
        assert((p + b)[p.len() + j] == b[j]);
        let c = b[j];
        let next = at.spec_next_column();
        if is_punctuation(c) {
            lemma_tokens_shift(p, kp, b, kb, j + 1, next, tokens.push(punctuation_token(c)));
        } else if c == '"' {
            lemma_string_shift(p, b, j + 1, at, Seq::empty());
            lemma_lex_string_advances(b, j + 1, at, Seq::empty());
            if let Ok((text, e, q)) = spec_lex_string(b, j + 1, at, Seq::empty()) {
                lemma_tokens_shift(p, kp, b, kb, e, q, tokens.push(SpecToken::Str(text)));
            }
        } else if c == 't' || c == 'f' || c == 'n' {
            lemma_keyword_shift(p, kp, b, kb, j, at);
            lemma_keyword_advances(b, kb, j, at);
            if let Ok((t, e, q)) = spec_lex_keyword(b, kb, j, at) {
                lemma_tokens_shift(p, kp, b, kb, e, q, tokens.push(t));
            }
        } else if is_digit(c) || c == '-' {
            lemma_number_shift(p, b, j, at, Seq::empty(), false, false, false);
            lemma_number_token_advances(b, j, at);
            if let Ok((text, e, q)) = spec_lex_number_token(b, j, at) {
                lemma_tokens_shift(p, kp, b, kb, e, q, tokens.push(SpecToken::Num(text)));
            }
        } else if c == '\n' {
            lemma_tokens_shift(p, kp, b, kb, j + 1, at.spec_next_row(), tokens);
        } else {
            lemma_tokens_shift(p, kp, b, kb, j + 1, next, tokens);
        }
    }
}

// ---------------------------------------------------------------------------------------
// White space between tokens.
// ---------------------------------------------------------------------------------------

/// Whether `c` is one of the four characters that JSON counts as white space: space, tab,
/// line feed and carriage return.
pub open spec fn is_blank(c: char) -> bool {
    c == ' ' || c == '\t' || c == '\n' || c == '\r'
}

/// `n` characters none of which is a letter.
pub open spec fn no_letters(n: nat) -> Seq<bool> {
    Seq::new(n, |q: int| false)
}

/// A run of white space is read as nothing.
proof fn lemma_skip_blanks(
    s: Seq<char>,
    k: Seq<bool>,
    i: int,
    m: int,
    at1: Position,
    at2: Position,
    tokens: Seq<SpecToken>,
)
    requires
        0 <= i,
        0 <= m,
        i + m <= s.len(),
        forall|q: int| i <= q < i + m ==> is_blank(#[trigger] s[q]),
    ensures
        tokens_part(spec_lex_tokens(s, k, i, at1, tokens)) == tokens_part(
            spec_lex_tokens(s, k, i + m, at2, tokens),
        ),
    decreases m,
{
    if m == 0 {
        lemma_tokens_anywhere(s, k, i, at1, at2, tokens);
    } else {
        let c = s[i];
        assert(is_blank(c));
        if c == '\n' {
            lemma_skip_blanks(s, k, i + 1, m - 1, at1.spec_next_row(), at2, tokens);
        } else {
            lemma_skip_blanks(s, k, i + 1, m - 1, at1.spec_next_column(), at2, tokens);
        }
    }
}

/// White space put between two tokens, before the first or after the last, changes no token.
///
/// `a` and `b` are two pieces of text, with `ka` and `kb` saying which of their characters
/// are letters, and `w` a run of JSON white space (no letters). The tokens of `a` alone are
/// read without error, so `a` does not end inside a string, and the two pieces keep their
/// tokens apart, so no number or keyword runs on from `a` into `b`. Then `a`, `w` and `b`
/// side by side give the same tokens as `a` and `b` side by side, and one of them is read
/// without error exactly when the other is.
pub proof fn lemma_blanks_between_tokens(
    a: Seq<char>,
    ka: Seq<bool>,
    w: Seq<char>,
    b: Seq<char>,
    kb: Seq<bool>,
)
    requires
        ka.len() == a.len(),
        kb.len() == b.len(),
        forall|q: int| 0 <= q < w.len() ==> is_blank(#[trigger] w[q]),
        spec_tokenize_marked(a, ka) is Ok,
        kept_apart(a, ka, b, kb),
    ensures
        spec_tokenize_marked(a + w + b, ka + no_letters(w.len()) + kb) is Ok
            <==> spec_tokenize_marked(a + b, ka + kb) is Ok,
        spec_tokenize_marked(a + b, ka + kb) is Ok ==> spec_tokenize_marked(
            a + w + b,
            ka + no_letters(w.len()) + kb,
        ) == spec_tokenize_marked(a + b, ka + kb),
{
    let start = Position { row: 1, column: 1 };
    let ta = spec_tokenize_marked(a, ka)->Ok_0;
    let kw = no_letters(w.len());
    let n = a.len() as int;
    // Without the white space.
    lemma_tokens_in_prefix(a, ka, b, kb, 0, start, start, Seq::empty());
    lemma_tokens_shift(a, ka, b, kb, 0, start, ta);
    // With it.
    let wb = w + b;
    let kwb = kw + kb;
    let s2 = a + w + b;
    let k2 = ka + kw + kb;
    assert(s2 =~= a + wb);
    assert(k2 =~= ka + kwb);
    assert(kept_apart(a, ka, wb, kwb)) by {
        if w.len() == 0 {
            assert(wb =~= b);
            assert(kwb =~= kb);
        } else {
            assert(wb[0] == w[0]);
            assert(kwb[0] == kw[0]);
            assert(is_blank(w[0]));
        }
    }
    lemma_tokens_in_prefix(a, ka, wb, kwb, 0, start, start, Seq::empty());
    assert forall|q: int| n <= q < n + w.len() implies is_blank(#[trigger] s2[q]) by {
        assert(s2[q] == w[q - n]);
    }
    lemma_skip_blanks(s2, k2, n, w.len() as int, start, start, ta);
    assert(s2 =~= (a + w) + b);
    assert(k2 =~= (ka + kw) + kb);
    lemma_tokens_shift(a + w, ka + kw, b, kb, 0, start, ta);
}

/// The same for the tokens of text, whose letters are the characters that have Unicode's
/// Alphabetic property: JSON white space put between two tokens, before the first or after
/// the last, changes no token.
pub proof fn lemma_blanks_between_tokens_of_text(a: Seq<char>, w: Seq<char>, b: Seq<char>)
    requires
        forall|q: int| 0 <= q < w.len() ==> is_blank(#[trigger] w[q]),
        spec_tokenize(a) is Ok,
        kept_apart(a, letters_of(a), b, letters_of(b)),
    ensures
        spec_tokenize(a + w + b) is Ok <==> spec_tokenize(a + b) is Ok,
        spec_tokenize(a + b) is Ok ==> spec_tokenize(a + w + b) == spec_tokenize(a + b),
{
    lemma_blanks_between_tokens(a, letters_of(a), w, b, letters_of(b));
    assert(letters_of(a + w + b) =~= letters_of(a) + no_letters(w.len()) + letters_of(b));
    assert(letters_of(a + b) =~= letters_of(a) + letters_of(b));
}

// ---------------------------------------------------------------------------------------
// Tokens written out as text are read back.
// ---------------------------------------------------------------------------------------

/// The text of one token: punctuation as itself, a string between quotes with its characters
/// escaped, a number as its text, a keyword as its word.
pub open spec fn token_text(t: SpecToken) -> Seq<char> {
    match t {
        SpecToken::BraceCurlyOpen => seq!['{'],
        SpecToken::BraceCurlyClose => seq!['}'],
        SpecToken::BracketSquareOpen => seq!['['],
        SpecToken::BracketSquareClose => seq![']'],
        SpecToken::Comma => seq![','],
        SpecToken::Colon => seq![':'],
        SpecToken::Str(text) => seq!['"'] + escape_text(text) + seq!['"'],
        SpecToken::Num(text) => text,
        SpecToken::True => seq!['t', 'r', 'u', 'e'],
        SpecToken::False => seq!['f', 'a', 'l', 's', 'e'],
        SpecToken::Null => seq!['n', 'u', 'l', 'l'],
    }
}

/// Which characters of the text of `t` are letters: all those of a keyword, and no other.
pub open spec fn token_marks(t: SpecToken) -> Seq<bool> {
    if t is True || t is False || t is Null {
        Seq::new(token_text(t).len(), |q: int| true)
    } else {
        no_letters(token_text(t).len())
    }
}

/// Tokens written out one after the other, each followed by a space.
pub open spec fn tokens_text(tokens: Seq<SpecToken>) -> Seq<char>
    decreases tokens.len(),
{
    if tokens.len() == 0 {
        Seq::empty()
    } else {
        tokens_text(tokens.drop_last()) + token_text(tokens.last()) + seq![' ']
    }
}

/// Which characters of [`tokens_text`] are letters.
pub open spec fn tokens_marks(tokens: Seq<SpecToken>) -> Seq<bool>
    decreases tokens.len(),
{
    if tokens.len() == 0 {
        Seq::empty()
    } else {
        tokens_marks(tokens.drop_last()) + token_marks(tokens.last()) + seq![false]
    }
}

/// Whether the tokenizer reads the number text `text`, followed by a space, as that number
/// and nothing more.
pub open spec fn number_reads_whole(text: Seq<char>) -> bool {
    &&& text.len() > 0
    &&& is_digit(text[0]) || text[0] == '-'
    &&& spec_lex_number_token(text.push(' '), 0, Position { row: 1, column: 1 }) matches Ok(
        (t, j, _),
    ) && t == text && j == text.len()
}

/// Whether the text of every number of `tokens` is read back whole.
pub open spec fn numbers_read_whole(tokens: Seq<SpecToken>) -> bool {
    forall|q: int|
        0 <= q < tokens.len() && (#[trigger] tokens[q]) is Num ==> number_reads_whole(
            tokens[q]->Num_0,
        )
}

/// Tokens written out have one mark per character, and end with a space that is no letter.
proof fn lemma_tokens_marks_len(tokens: Seq<SpecToken>)
    ensures
        tokens_marks(tokens).len() == tokens_text(tokens).len(),
        tokens.len() > 0 ==> tokens_text(tokens).last() == ' ' && !tokens_marks(tokens).last(),
    decreases tokens.len(),
{
    if tokens.len() > 0 {
        lemma_tokens_marks_len(tokens.drop_last());
    }
}

/// The run of letters from `s[i]` on ends at `j` when `s[i..j]` are letters and `s[j]` is not.
proof fn lemma_run_of_marked(s: Seq<char>, k: Seq<bool>, i: int, j: int)
    requires
        0 <= i <= j < s.len(),
        forall|q: int| i <= q < j ==> #[trigger] k[q],
        !k[j],
    ensures
        alphabetic_run_end(s, k, i) == j,
    decreases j - i,
{
    if i < j {
        lemma_run_of_marked(s, k, i + 1, j);
    }
}

/// A space at the end of the text is read as nothing.
proof fn lemma_final_space(
    s: Seq<char>,
    k: Seq<bool>,
    n: int,
    at: Position,
    tokens: Seq<SpecToken>,
)
    requires
        0 <= n,
        s.len() == n + 1,
        s[n] == ' ',
    ensures
        spec_lex_tokens(s, k, n, at, tokens) == Ok::<Seq<SpecToken>, SpecLexError>(tokens),
{
    assert(spec_lex_tokens(s, k, n + 1, at.spec_next_column(), tokens) == Ok::<
        Seq<SpecToken>,
        SpecLexError,
    >(tokens));
}

/// The text of one token followed by a space is read as that token.
proof fn lemma_one_token(t: SpecToken, tokens: Seq<SpecToken>)
    requires
        is_scalar_token(t) ==> accepts_value(tokens),
        is_closing_token(t) ==> !ends_with_comma(tokens),
        t is Num ==> number_reads_whole(t->Num_0),
        token_text(t).len() < i32::MAX,
    ensures
        tokens_part(
            spec_lex_tokens(
                token_text(t) + seq![' '],
                token_marks(t) + seq![false],
                0,
                Position { row: 1, column: 1 },
                tokens,
            ),
        ) == Some(tokens.push(t)),
{
    let r = token_text(t) + seq![' '];
    let kr = token_marks(t) + seq![false];
    let start = Position { row: 1, column: 1 };
    let n = token_text(t).len() as int;
    let pushed = tokens.push(t);
    assert(r[n] == ' ');
    assert(r[0] == token_text(t)[0]);
    match t {
        SpecToken::Str(text) => {
            let e = escape_text(text);
            let m = e.len() as int;
            assert(r.subrange(1, 1 + m) =~= e);
            assert(r[1 + m] == '"');
            lemma_read_escaped(r, 1, start, Seq::empty(), text);
            assert(Seq::<char>::empty() + text =~= text);
            let q = advanced(start, m + 1);
            assert(spec_lex_string(r, 1, start, Seq::empty()) == Ok::<
                (Seq<char>, int, Position),
                SpecLexError,
            >((text, n, q)));
            lemma_final_space(r, kr, n, q, pushed);
        },
        SpecToken::Num(text) => {
            assert(r =~= text.push(' '));
            let q = spec_lex_number_token(r, 0, start)->Ok_0.2;
            lemma_final_space(r, kr, n, q, pushed);
        },
        SpecToken::True => {
            lemma_run_of_marked(r, kr, 0, 4);
            assert(r.subrange(0, 4) =~= seq!['t', 'r', 'u', 'e']);
            lemma_final_space(r, kr, n, advanced(start, 4), pushed);
        },
        SpecToken::False => {
            lemma_run_of_marked(r, kr, 0, 5);
            assert(r.subrange(0, 5) =~= seq!['f', 'a', 'l', 's', 'e']);
            lemma_final_space(r, kr, n, advanced(start, 5), pushed);
        },
        SpecToken::Null => {
            lemma_run_of_marked(r, kr, 0, 4);
            assert(r.subrange(0, 4) =~= seq!['n', 'u', 'l', 'l']);
            lemma_final_space(r, kr, n, advanced(start, 4), pushed);
        },
        _ => {
            lemma_final_space(r, kr, n, start.spec_next_column(), pushed);
        },
    }
}

/// Tokens written out as text, each followed by a space, are read back as those tokens.
///
/// The tokens stand where the tokenizer lets them stand, the text of each number is read
/// back whole, and the text is short enough for its columns to be counted in `i32`.
pub proof fn lemma_tokens_read_back(tokens: Seq<SpecToken>)
    requires
        well_placed(tokens),
        numbers_read_whole(tokens),
        tokens_text(tokens).len() <= i32::MAX - 1,
    ensures
        spec_tokenize_marked(tokens_text(tokens), tokens_marks(tokens)) == Ok::<
            Seq<SpecToken>,
            SpecLexError,
        >(tokens),
    decreases tokens.len(),
{
    if tokens.len() > 0 {
        let init = tokens.drop_last();
        let t = tokens.last();
        let last = tokens.len() - 1;
        assert(tokens[last] == t);
        assert(init.take(last) =~= init);
        assert(tokens.take(last) =~= init);
        assert forall|q: int| 0 <= q < init.len() implies init.take(q) == tokens.take(q) by {
            assert(init.take(q) =~= tokens.take(q));
        }
        assert(well_placed(init)) by {
            assert forall|q: int| 0 <= q < init.len() implies {
                &&& is_scalar_token(#[trigger] init[q]) ==> accepts_value(init.take(q))
                &&& is_closing_token(init[q]) ==> !ends_with_comma(init.take(q))
            } by {
                assert(init[q] == tokens[q]);
            }
        }
        assert(numbers_read_whole(init)) by {
            assert forall|q: int|
                0 <= q < init.len() && (#[trigger] init[q]) is Num implies number_reads_whole(
                init[q]->Num_0,
            ) by {
                assert(init[q] == tokens[q]);
            }
        }
        let a = tokens_text(init);
        let ka = tokens_marks(init);
        let r = token_text(t) + seq![' '];
        let kr = token_marks(t) + seq![false];
        assert(tokens_text(tokens) =~= a + r);
        assert(tokens_marks(tokens) =~= ka + kr);
        lemma_tokens_marks_len(init);
        lemma_tokens_read_back(init);
        let start = Position { row: 1, column: 1 };
        lemma_tokens_in_prefix(a, ka, r, kr, 0, start, start, Seq::empty());
        lemma_tokens_shift(a, ka, r, kr, 0, start, init);
        lemma_one_token(t, init);
        assert(init.push(t) =~= tokens);
        assert(tokens_part(spec_tokenize_marked(tokens_text(tokens), tokens_marks(tokens)))
            == Some(tokens));
    } else {
        assert(tokens =~= Seq::<SpecToken>::empty());
    }
}

} // verus!

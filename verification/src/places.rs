use vstd::prelude::*;
use crate::chars::{hex_digit_value, is_digit, is_scalar_value, letters_of};
use crate::error::SpecLexError;
use crate::lexer::{
    alphabetic_run_end, fits_positions, lemma_line_end, lemma_newlines_grow, lemma_same_line,
    line_end, newlines_before, simple_escape, spec_lex_keyword, spec_lex_number,
    spec_lex_number_token, spec_lex_string, spec_lex_tokens, spec_tokenize, spec_tokenize_marked,
    spec_unicode_escape,
};
use crate::position::Position;
use crate::token::SpecToken;

verus! {

// ---------------------------------------------------------------------------------------
// Where a character stands: its line and its column.
// ---------------------------------------------------------------------------------------

/// The index where the line of `s[i]` starts: just after the last line feed before `s[i]`,
/// or `0`.
pub open spec fn line_start(s: Seq<char>, i: int) -> int
    decreases i,
{
    if i <= 0 {
        0
    } else if i - 1 < s.len() && s[i - 1] == '\n' {
        i
    } else {
        line_start(s, i - 1)
    }
}

/// The line and the column of `s[i]`, both counted from 1: one line more for each line feed
/// before it, one column more for each character between the start of its line and it.
pub open spec fn position_of(s: Seq<char>, i: int) -> Position {
    Position {
        row: (1 + newlines_before(s, i)) as i32,
        column: (1 + i - line_start(s, i)) as i32,
    }
}

/// The line of `s[i]` starts at or before it, after a line feed or at the start, with no
/// line feed in between.
proof fn lemma_line_start(s: Seq<char>, i: int)
    requires
        0 <= i <= s.len(),
    ensures
        0 <= line_start(s, i) <= i,
        line_start(s, i) == 0 || s[line_start(s, i) - 1] == '\n',
        forall|q: int| line_start(s, i) <= q < i ==> s[q] != '\n',
    decreases i,
{
    if i > 0 && s[i - 1] != '\n' {
        lemma_line_start(s, i - 1);
    }
}

/// Moving along a line keeps where the line starts.
proof fn lemma_same_line_start(s: Seq<char>, i: int, j: int)
    requires
        0 <= i <= j <= s.len(),
        forall|q: int| i <= q < j ==> s[q] != '\n',
    ensures
        line_start(s, j) == line_start(s, i),
    decreases j - i,
{
    if i < j {
        lemma_same_line_start(s, i, j - 1);
    }
}

/// Whether no quote stands in `s` from `s[a]` up to before `s[b]`.
pub open spec fn no_quote(s: Seq<char>, a: int, b: int) -> bool {
    forall|q: int| a <= q < b ==> s[q] != '"'
}

/// Where the tokenizer stands at `s[i]` when it is at `at`: on the line of `s[i]`, at a
/// column no further than that of `s[i]`, and at exactly its column where no string opened
/// before it on its line.
spec fn placed(s: Seq<char>, i: int, at: Position) -> bool {
    &&& at.row == 1 + newlines_before(s, i)
    &&& 1 <= at.column <= 1 + i - line_start(s, i)
    &&& no_quote(s, line_start(s, i), i) ==> at.column == 1 + i - line_start(s, i)
}

/// In text whose positions fit, a place on a line leaves room in `i32` for the rest of the
/// line, and the line count fits.
proof fn lemma_room(s: Seq<char>, i: int)
    requires
        fits_positions(s),
        0 <= i <= s.len(),
    ensures
        1 + line_end(s, i) - line_start(s, i) <= i32::MAX,
        i <= line_end(s, i),
        1 + newlines_before(s, i) <= i32::MAX,
{
    lemma_line_start(s, i);
    let a = line_start(s, i);
    lemma_line_end(s, a);
    lemma_line_end(s, i);
    if line_end(s, a) < i {
        assert(s[line_end(s, a)] == '\n');
    }
    lemma_same_line(s, a, i);
    assert(line_end(s, a) - a < i32::MAX);
    lemma_newlines_grow(s, i, s.len() as int);
}

/// Moving past a character that is no line feed moves one column along the same line.
proof fn lemma_next_column_placed(s: Seq<char>, i: int, at: Position)
    requires
        fits_positions(s),
        0 <= i < s.len(),
        s[i] != '\n',
        placed(s, i, at),
    ensures
        placed(s, i + 1, at.spec_next_column()),
        i + 1 <= line_end(s, i),
{
    lemma_room(s, i);
    lemma_line_end(s, i);
    lemma_same_line(s, i, i + 1);
}

/// A `\u` escape that is read moves one column per digit, and holds no line feed.
proof fn lemma_escape_place(s: Seq<char>, i: int, k: int, value: int, at: Position)
    requires
        0 <= i,
        0 <= k <= 4,
        i + k <= s.len(),
        at.column >= 1,
        at.column + (line_end(s, i + k) - (i + k)) <= i32::MAX,
    ensures
        spec_unicode_escape(s, i, k, value, at) matches Ok((_, p)) ==> p.row == at.row
            && p.column == at.column + (4 - k) && i + 4 <= line_end(s, i + k),
    decreases 4 - k,
{
    lemma_line_end(s, i + k);
    if k < 4 && i + k < s.len() {
        if let Some(d) = hex_digit_value(s[i + k]) {
            assert(s[i + k] != '\n');
            lemma_same_line(s, i + k, i + k + 1);
            lemma_escape_place(s, i, k + 1, value * 16 + d, at.spec_next_column());
        }
    }
}

/// A string that is read holds no raw line feed, and moves one column per character read.
proof fn lemma_string_place(s: Seq<char>, i: int, at: Position, text: Seq<char>)
    requires
        0 <= i <= s.len(),
        at.column >= 1,
        at.column + (line_end(s, i) - i) <= i32::MAX,
    ensures
        spec_lex_string(s, i, at, text) matches Ok((_, j, p)) ==> j <= line_end(s, i)
            && p.row == at.row && p.column == at.column + (j - i),
    decreases s.len() - i,
{
    lemma_line_end(s, i);
    if i < s.len() {
        let c = s[i];
        let p1 = at.spec_next_column();
        if c == '\\' && i + 1 < s.len() {
            let e = s[i + 1];
            match simple_escape(e) {
                Some(d) => {
                    assert(e != '\n');
                    lemma_same_line(s, i, i + 2);
                    lemma_string_place(s, i + 2, p1.spec_next_column(), text.push(d));
                },
                None => if e == 'u' {
                    if i + 1 < line_end(s, i) {
                        lemma_same_line(s, i, i + 2);
                        lemma_escape_place(s, i + 2, 0, 0, p1);
                        if let Ok((code, p2)) = spec_unicode_escape(s, i + 2, 0, 0, p1) {
                            if is_scalar_value(code) {
                                lemma_same_line(s, i, i + 6);
                                lemma_string_place(
                                    s,
                                    i + 6,
                                    p2.spec_next_column(),
                                    text.push(code as char),
                                );
                            }
                        }
                    }
                },
            }
        } else if c != '"' && c != '\\' && c != '\n' {
            lemma_same_line(s, i, i + 1);
            lemma_string_place(s, i + 1, p1, text.push(c));
        }
    }
}

/// A number that is read holds no line feed, and moves one column per character read.
proof fn lemma_number_place(
    s: Seq<char>,
    i: int,
    at: Position,
    text: Seq<char>,
    has_decimal: bool,
    has_exponent: bool,
    after_minus: bool,
)
    requires
        0 <= i <= s.len(),
        at.column >= 1,
        at.column + (line_end(s, i) - i) <= i32::MAX,
    ensures
        spec_lex_number(s, i, at, text, has_decimal, has_exponent, after_minus) matches Ok(
            (_, j, p),
        ) ==> j <= line_end(s, i) && p.row == at.row && p.column == at.column + (j - i),
    decreases s.len() - i,
{
    lemma_line_end(s, i);
    if i < s.len() {
        let c = s[i];
        let next = at.spec_next_column();
        if is_digit(c) || c == '.' || c == '-' || c == '+' || c == 'e' || c == 'E' {
            lemma_same_line(s, i, i + 1);
            if is_digit(c) {
                lemma_number_place(s, i + 1, next, text.push(c), has_decimal, has_exponent, false);
            } else if c == '.' && !has_decimal && !has_exponent {
                lemma_number_place(s, i + 1, next, text.push(c), true, has_exponent, false);
            } else if c == '-' && text.len() == 0 {
                lemma_number_place(s, i + 1, next, text.push(c), has_decimal, has_exponent, true);
            } else if (c == '+' || c == '-') && has_exponent && after_minus {
                lemma_number_place(
                    s,
                    i + 1,
                    next,
                    text.push(c),
                    has_decimal,
                    has_exponent,
                    false,
                );
            } else if (c == 'e' || c == 'E') && !has_exponent {
                lemma_number_place(s, i + 1, next, text.push(c), has_decimal, true, true);
            }
        }
    }
}

/// A run of letters holds no line feed where no line feed is marked a letter.
proof fn lemma_run_in_line(s: Seq<char>, k: Seq<bool>, i: int)
    requires
        0 <= i <= s.len(),
        forall|q: int| 0 <= q < s.len() && s[q] == '\n' ==> !k[q],
    ensures
        alphabetic_run_end(s, k, i) <= line_end(s, i),
    decreases s.len() - i,
{
    lemma_line_end(s, i);
    if i < s.len() && k[i] {
        lemma_same_line(s, i, i + 1);
        lemma_run_in_line(s, k, i + 1);
    }
}

/// A `\u` escape never fails for an unexpected character.
proof fn lemma_escape_errors(s: Seq<char>, i: int, k: int, value: int, at: Position)
    ensures
        !(spec_unicode_escape(s, i, k, value, at) matches Err(
            SpecLexError::UnexpectedCharacter { .. },
        )),
    decreases 4 - k,
{
    if k < 4 && 0 <= i + k < s.len() {
        if let Some(d) = hex_digit_value(s[i + k]) {
            lemma_escape_errors(s, i, k + 1, value * 16 + d, at.spec_next_column());
        }
    }
}

/// A string never fails for an unexpected character.
proof fn lemma_string_errors(s: Seq<char>, i: int, at: Position, text: Seq<char>)
    ensures
        !(spec_lex_string(s, i, at, text) matches Err(SpecLexError::UnexpectedCharacter { .. })),
    decreases s.len() - i,
{
    if 0 <= i < s.len() {
        let c = s[i];
        let p1 = at.spec_next_column();
        if c == '\\' && i + 1 < s.len() {
            let e = s[i + 1];
            match simple_escape(e) {
                Some(d) => lemma_string_errors(s, i + 2, p1.spec_next_column(), text.push(d)),
                None => if e == 'u' {
                    lemma_escape_errors(s, i + 2, 0, 0, p1);
                    if let Ok((code, p2)) = spec_unicode_escape(s, i + 2, 0, 0, p1) {
                        if is_scalar_value(code) {
                            crate::lexer::lemma_unicode_escape_reads_four(s, i + 2, 0, 0, p1);
                            lemma_string_errors(
                                s,
                                i + 6,
                                p2.spec_next_column(),
                                text.push(code as char),
                            );
                        }
                    }
                },
            }
        } else if c != '"' && c != '\\' {
            lemma_string_errors(s, i + 1, p1, text.push(c));
        }
    }
}

/// A number never fails for an unexpected character.
proof fn lemma_number_errors(
    s: Seq<char>,
    i: int,
    at: Position,
    text: Seq<char>,
    has_decimal: bool,
    has_exponent: bool,
    after_minus: bool,
)
    ensures
        !(spec_lex_number(s, i, at, text, has_decimal, has_exponent, after_minus) matches Err(
            SpecLexError::UnexpectedCharacter { .. },
        )),
    decreases s.len() - i,
{
    if 0 <= i < s.len() {
        let c = s[i];
        let next = at.spec_next_column();
        if is_digit(c) {
            lemma_number_errors(s, i + 1, next, text.push(c), has_decimal, has_exponent, false);
        } else if c == '.' && !has_decimal && !has_exponent {
            lemma_number_errors(s, i + 1, next, text.push(c), true, has_exponent, false);
        } else if c == '-' && text.len() == 0 {
            lemma_number_errors(s, i + 1, next, text.push(c), has_decimal, has_exponent, true);
        } else if (c == '+' || c == '-') && has_exponent && after_minus {
            lemma_number_errors(s, i + 1, next, text.push(c), has_decimal, has_exponent, false);
        } else if (c == 'e' || c == 'E') && !has_exponent {
            lemma_number_errors(s, i + 1, next, text.push(c), has_decimal, true, true);
        }
    }
}

/// Wherever the tokenizer starts reading from `s[i]` at the place of `s[i]`, a character
/// that starts no token is reported at its own line and column.
proof fn lemma_tokens_place(
    s: Seq<char>,
    k: Seq<bool>,
    i: int,
    at: Position,
    tokens: Seq<SpecToken>,
)
    requires
        fits_positions(s),
        forall|q: int| 0 <= q < s.len() && s[q] == '\n' ==> !k[q],
        0 <= i <= s.len(),
        placed(s, i, at),
    ensures
        spec_lex_tokens(s, k, i, at, tokens) matches Err(
            SpecLexError::UnexpectedCharacter { found, at: p },
        ) ==> exists|q: int|
            {
                &&& 0 <= q < s.len()
                &&& s[q] == found
                &&& p.row == position_of(s, q).row
                &&& 1 <= p.column <= position_of(s, q).column
                &&& no_quote(s, line_start(s, q), q) ==> p == position_of(s, q)
            },
    decreases s.len() - i,
{
    if i < s.len() {
        let c = s[i];
        lemma_room(s, i);
        lemma_line_start(s, i);
        lemma_line_end(s, i);
        let next = at.spec_next_column();
        if c != '\n' {
            lemma_next_column_placed(s, i, at);
        }
        if c == '{' || c == '}' || c == '[' || c == ']' || c == ',' || c == ':' {
            let t = if c == '{' {
                SpecToken::BraceCurlyOpen
            } else if c == '}' {
                SpecToken::BraceCurlyClose
            } else if c == '[' {
                SpecToken::BracketSquareOpen
            } else if c == ']' {
                SpecToken::BracketSquareClose
            } else if c == ',' {
                SpecToken::Comma
            } else {
                SpecToken::Colon
            };
            lemma_tokens_place(s, k, i + 1, next, tokens.push(t));
        } else if c == '"' {
            lemma_same_line(s, i, i + 1);
            lemma_string_place(s, i + 1, at, Seq::empty());
            lemma_string_errors(s, i + 1, at, Seq::empty());
            if let Ok((text, j, p)) = spec_lex_string(s, i + 1, at, Seq::empty()) {
                crate::lexer::lemma_lex_string_advances(s, i + 1, at, Seq::empty());
                lemma_same_line(s, i, j);
                lemma_same_line_start(s, i, j);
                assert(!no_quote(s, line_start(s, j), j)) by {
                    assert(line_start(s, j) <= i < j);
                    assert(!(s[i] != '"'));
                }
                lemma_tokens_place(s, k, j, p, tokens.push(SpecToken::Str(text)));
            }
        } else if c == 't' || c == 'f' || c == 'n' {
            lemma_run_in_line(s, k, i);
            crate::lexer::lemma_alphabetic_run_bounds(s, k, i);
            let j = alphabetic_run_end(s, k, i);
            lemma_same_line(s, i, j);
            if let Ok((t, j2, p)) = spec_lex_keyword(s, k, i, at) {
                let word = s.subrange(i, j);
                if word.len() == 0 {
                    assert(word =~= Seq::<char>::empty());
                }
                lemma_same_line_start(s, i, j);
                assert(1 + j - line_start(s, j) <= i32::MAX);
                lemma_tokens_place(s, k, j2, p, tokens.push(t));
            }
        } else if is_digit(c) || c == '-' {
            lemma_number_place(s, i, at, Seq::empty(), false, false, false);
            lemma_number_errors(s, i, at, Seq::empty(), false, false, false);
            crate::lexer::lemma_lex_number_bounds(
                s,
                i + 1,
                next,
                Seq::empty().push(c),
                false,
                false,
                c == '-',
            );
            if let Ok((text, j, p)) = spec_lex_number_token(s, i, at) {
                lemma_same_line(s, i, j);
                lemma_same_line_start(s, i, j);
                lemma_tokens_place(s, k, j, p, tokens.push(SpecToken::Num(text)));
            }
        } else if c == '\n' {
            lemma_newlines_grow(s, i, s.len() as int);
            assert(newlines_before(s, i + 1) == newlines_before(s, i) + 1);
            assert(line_start(s, i + 1) == i + 1);
            lemma_tokens_place(s, k, i + 1, at.spec_next_row(), tokens);
        } else if crate::chars::is_white_space(c) {
            lemma_tokens_place(s, k, i + 1, next, tokens);
        } else {
            let here = position_of(s, i);
            assert(here.row == 1 + newlines_before(s, i));
            assert(here.column == 1 + i - line_start(s, i));
        }
    }
}

/// A character that starts no token is reported on its own line, the line feeds before it
/// counted, and at a column no further than its own. The opening quote of a string takes no
/// column, as in the tokenizer that this one follows; so where no string opened before it on
/// its line, the character is reported at exactly its own line and column: one column more
/// than the characters between the start of its line and it.
pub proof fn lemma_unexpected_character_place(s: Seq<char>)
    requires
        fits_positions(s),
    ensures
        spec_tokenize(s) matches Err(SpecLexError::UnexpectedCharacter { found, at }) ==> exists|
            q: int,
        | {
            &&& 0 <= q < s.len()
            &&& s[q] == found
            &&& at.row == position_of(s, q).row
            &&& 1 <= at.column <= position_of(s, q).column
            &&& no_quote(s, line_start(s, q), q) ==> at == position_of(s, q)
        },
{
    let k = letters_of(s);
    assert forall|q: int| 0 <= q < s.len() && s[q] == '\n' implies !k[q] by {}
    lemma_tokens_place(s, k, 0, Position { row: 1, column: 1 }, Seq::empty());
}

} // verus!

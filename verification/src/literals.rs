use vstd::prelude::*;
use crate::chars::{hex_digit_value, is_digit, is_scalar_value, letters_of};
use crate::error::SpecLexError;
use crate::float_text::{
    all_digits, ascii_lower, is_exponent_part, is_float_literal, is_mantissa, is_number_literal,
    unsigned_part,
};
use crate::lexer::{
    advanced, alphabetic_run_end, simple_escape, spec_lex_keyword, spec_lex_number,
    spec_lex_number_token, spec_lex_string, spec_lex_tokens, spec_tokenize, spec_unicode_escape,
};
use crate::token::SpecToken;
use crate::position::Position;

verus! {

// ---------------------------------------------------------------------------------------
// What number texts Rust's `f64` parser accepts.
// ---------------------------------------------------------------------------------------

/// Whether `x` is a non-empty run of decimal digits.
pub open spec fn digit_run(x: Seq<char>) -> bool {
    x.len() > 0 && forall|q: int| 0 <= q < x.len() ==> is_digit(#[trigger] x[q])
}

/// Whether every character of `x` is a decimal digit (`x` may be empty).
pub open spec fn only_digits(x: Seq<char>) -> bool {
    forall|q: int| 0 <= q < x.len() ==> is_digit(#[trigger] x[q])
}

/// The text `a`, or `a.b` where `point` holds.
pub open spec fn decimal_text(a: Seq<char>, point: bool, b: Seq<char>) -> Seq<char> {
    if point {
        a + seq!['.'] + b
    } else {
        a
    }
}

/// An exponent of any length is accepted: digits, with or without a fractional part, then
/// `e` or `E`, an optional `+` or `-`, and one or more digits, with or without a leading
/// minus, are a number that Rust's `f64` parser accepts.
pub proof fn lemma_exponents_of_any_length(
    a: Seq<char>,
    point: bool,
    b: Seq<char>,
    marker: char,
    sign: Seq<char>,
    e: Seq<char>,
)
    requires
        digit_run(a),
        only_digits(b),
        marker == 'e' || marker == 'E',
        sign.len() == 0 || sign == seq!['+'] || sign == seq!['-'],
        digit_run(e),
    ensures
        is_float_literal(decimal_text(a, point, b) + seq![marker] + sign + e),
        is_float_literal(seq!['-'] + decimal_text(a, point, b) + seq![marker] + sign + e),
{
    let m = decimal_text(a, point, b);
    let x = seq!['e'] + sign + e;
    let t = m + seq![marker] + sign + e;
    let u = m + x;
    assert(ascii_lower('E') == 'e');
    assert(t[0] == a[0]);
    assert(unsigned_part(t) == t);
    assert(t.map_values(|c: char| ascii_lower(c)) =~= u) by {
        assert forall|q: int| 0 <= q < t.len() implies ascii_lower(t[q]) == u[q] by {
            if q < m.len() {
                if point && q == a.len() {
                    assert(t[q] == '.');
                } else if q < a.len() {
                    assert(t[q] == a[q]);
                } else {
                    assert(t[q] == b[q - a.len() - 1]);
                }
            } else if q == m.len() {
            } else if q < m.len() + 1 + sign.len() {
                assert(t[q] == sign[q - m.len() - 1]);
            } else {
                assert(t[q] == e[q - m.len() - 1 - sign.len()]);
            }
        }
    }
    assert(u.take(m.len() as int) =~= m);
    assert(u.skip(m.len() as int) =~= x);
    assert(is_mantissa(m)) by {
        if point {
            let d = a.len() as int;
            assert(m[d] == '.');
            assert(m.take(d) =~= a);
            assert(m.skip(d + 1) =~= b);
            assert(all_digits(m.take(d)));
            assert(all_digits(m.skip(d + 1)));
        } else {
            assert(all_digits(m));
        }
    }
    assert(is_exponent_part(x)) by {
        if sign.len() == 0 {
            assert(x.skip(1) =~= e);
            assert(all_digits(x.skip(1)));
        } else {
            assert(x.skip(2) =~= e);
            assert(x[1] == sign[0]);
            assert(all_digits(x.skip(2)));
        }
    }
    assert(is_number_literal(u));
    let mt = seq!['-'] + t;
    assert(mt =~= seq!['-'] + decimal_text(a, point, b) + seq![marker] + sign + e);
    assert(unsigned_part(mt) =~= t);
}

// ---------------------------------------------------------------------------------------
// Numbers in JSON text.
// ---------------------------------------------------------------------------------------

/// Whether `sign`, `int_part`, `frac` and `exp` are the parts of a number of JSON's grammar
/// `-? (0 | [1-9][0-9]*) (. [0-9]+)? ([eE] [+-]? [0-9]+)?`: no sign or a minus, `0` or
/// digits that do not start with `0`, nothing or a point and digits, nothing or an `e` or
/// `E`, an optional sign and digits.
pub open spec fn json_number_parts(
    sign: Seq<char>,
    int_part: Seq<char>,
    frac: Seq<char>,
    exp: Seq<char>,
) -> bool {
    &&& sign.len() == 0 || sign == seq!['-']
    &&& int_part == seq!['0'] || (digit_run(int_part) && int_part[0] != '0')
    &&& frac.len() == 0 || (frac[0] == '.' && digit_run(frac.skip(1)))
    &&& exp.len() == 0 || ((exp[0] == 'e' || exp[0] == 'E') && (digit_run(exp.skip(1)) || (
    exp.len() > 1 && (exp[1] == '+' || exp[1] == '-') && digit_run(exp.skip(2)))))
}

/// Whether `c` ends a number: it can be no part of one.
pub open spec fn ends_number(c: char) -> bool {
    !is_digit(c) && c != '.' && c != '-' && c != '+' && c != 'e' && c != 'E'
}

/// `at`, moved `k` columns on, one at a time.
spec fn steps(at: Position, k: int) -> Position
    decreases k,
{
    if k <= 0 {
        at
    } else {
        steps(at.spec_next_column(), k - 1)
    }
}

/// Whether number text read so far can no longer be a lone `0` or `-0`, whatever digits
/// follow.
spec fn past_leading_zero(text: Seq<char>) -> bool {
    ||| text.len() >= 3
    ||| text.len() == 2 && text != seq!['-', '0']
    ||| text.len() == 1 && text[0] != '0' && text[0] != '-'
}

/// Digits that follow text past its leading zero are read one by one.
proof fn lemma_read_digits(
    s: Seq<char>,
    i: int,
    k: int,
    at: Position,
    text: Seq<char>,
    has_decimal: bool,
    has_exponent: bool,
    after_minus: bool,
)
    requires
        0 <= i,
        0 < k,
        i + k <= s.len(),
        forall|q: int| i <= q < i + k ==> is_digit(#[trigger] s[q]),
        past_leading_zero(text),
    ensures
        spec_lex_number(s, i, at, text, has_decimal, has_exponent, after_minus) == spec_lex_number(
            s,
            i + k,
            steps(at, k),
            text + s.subrange(i, i + k),
            has_decimal,
            has_exponent,
            false,
        ),
    decreases k,
{
    assert(is_digit(s[i]));
    assert(text != seq!['0'] && text != seq!['-', '0']) by {
        if text.len() == 1 {
            assert(seq!['-', '0'].len() == 2);
        }
    }
    let next = text.push(s[i]);
    if k > 1 {
        assert(past_leading_zero(next)) by {
            if text.len() == 1 {
                assert(next[0] == text[0]);
                if next == seq!['-', '0'] {
                    assert(next[0] == '-');
                }
            }
        }
        lemma_read_digits(
            s,
            i + 1,
            k - 1,
            at.spec_next_column(),
            next,
            has_decimal,
            has_exponent,
            false,
        );
        assert(next + s.subrange(i + 1, i + k) =~= text + s.subrange(i, i + k));
    } else {
        assert(next =~= text + s.subrange(i, i + k));
    }
}

/// Reading a number of JSON's grammar: where the text `t` of its parts stands in `s` from
/// `s[i]` on, followed by the end of `s` or by a character that ends a number, the
/// tokenizer reads exactly `t` as a number, and goes on after it.
#[verifier::spinoff_prover]
#[verifier::rlimit(30)]
pub proof fn lemma_json_number_read(
    s: Seq<char>,
    i: int,
    at: Position,
    sign: Seq<char>,
    int_part: Seq<char>,
    frac: Seq<char>,
    exp: Seq<char>,
)
    requires
        json_number_parts(sign, int_part, frac, exp),
        0 <= i,
        i + (sign + int_part + frac + exp).len() <= s.len(),
        forall|q: int|
            0 <= q < (sign + int_part + frac + exp).len() ==> s[i + q] == #[trigger] (sign
                + int_part + frac + exp)[q],
        i + (sign + int_part + frac + exp).len() == s.len() || ends_number(
            s[i + (sign + int_part + frac + exp).len()],
        ),
    ensures
        spec_lex_number_token(s, i, at) matches Ok((x, j, _)) && x == sign + int_part + frac
            + exp && j == i + (sign + int_part + frac + exp).len(),
{
    let t = sign + int_part + frac + exp;
    let i1 = i + sign.len();
    let i2 = i1 + int_part.len();
    let i3 = i2 + frac.len();
    let i4 = i3 + exp.len();
    assert forall|q: int| 0 <= q < sign.len() implies s[i + q] == sign[q] by {
        assert(t[q] == sign[q]);
    }
    assert forall|q: int| 0 <= q < int_part.len() implies s[i1 + q] == int_part[q] by {
        assert(t[sign.len() + q] == int_part[q]);
    }
    assert forall|q: int| 0 <= q < frac.len() implies s[i2 + q] == frac[q] by {
        assert(t[sign.len() + int_part.len() + q] == frac[q]);
    }
    assert forall|q: int| 0 <= q < exp.len() implies s[i3 + q] == exp[q] by {
        assert(t[sign.len() + int_part.len() + frac.len() + q] == exp[q]);
    }
    let empty = Seq::<char>::empty();
    // The sign.
    let p1 = steps(at, sign.len() as int);
    assert(spec_lex_number(s, i, at, empty, false, false, false) == spec_lex_number(
        s,
        i1,
        p1,
        sign,
        false,
        false,
        sign.len() > 0,
    )) by {
        if sign.len() > 0 {
            assert(sign[0] == '-');
            assert(s[i + 0] == sign[0]);
            assert(empty.push('-') =~= sign);
            assert(steps(at.spec_next_column(), 0) == at.spec_next_column());
        } else {
            assert(sign =~= empty);
        }
    }
    // The first digit of the integer part.
    let d0 = int_part[0];
    assert(is_digit(d0)) by {
        if int_part != seq!['0'] {
            assert(is_digit(int_part[0]));
        }
    }
    let t1 = sign.push(d0);
    assert(spec_lex_number(s, i1, p1, sign, false, false, sign.len() > 0) == spec_lex_number(
        s,
        i1 + 1,
        p1.spec_next_column(),
        t1,
        false,
        false,
        false,
    )) by {
        assert(s[i1] == d0);
        if sign.len() > 0 {
            assert(sign[0] != seq!['0'][0]);
            assert(sign.len() != seq!['-', '0'].len());
        } else {
            assert(sign.len() != seq!['0'].len());
            assert(sign.len() != seq!['-', '0'].len());
        }
    }
    // The rest of the integer part.
    let p2 = steps(p1.spec_next_column(), int_part.len() - 1);
    assert(spec_lex_number(s, i1 + 1, p1.spec_next_column(), t1, false, false, false)
        == spec_lex_number(s, i2, p2, sign + int_part, false, false, false)) by {
        if int_part.len() > 1 {
            assert(int_part != seq!['0']);
            assert(d0 != '0');
            assert(past_leading_zero(t1)) by {
                if sign.len() > 0 {
                    assert(t1.len() == 2);
                    if t1 == seq!['-', '0'] {
                        assert(t1[1] == '0');
                    }
                }
            }
            assert forall|q: int| i1 + 1 <= q < i2 implies is_digit(#[trigger] s[q]) by {
                assert(s[q] == int_part[q - i1]);
                assert(is_digit(int_part[q - i1]));
            }
            lemma_read_digits(
                s,
                i1 + 1,
                int_part.len() - 1,
                p1.spec_next_column(),
                t1,
                false,
                false,
                false,
            );
            assert(t1 + s.subrange(i1 + 1, i2) =~= sign + int_part);
        } else {
            assert(t1 =~= sign + int_part);
        }
    }
    // The fractional part.
    let t2 = sign + int_part;
    let p3 = steps(p2, frac.len() as int);
    let has_decimal = frac.len() > 0;
    assert(spec_lex_number(s, i2, p2, t2, false, false, false) == spec_lex_number(
        s,
        i3,
        p3,
        t2 + frac,
        has_decimal,
        false,
        false,
    )) by {
        if frac.len() > 0 {
            assert(s[i2] == '.');
            let t3 = t2.push('.');
            assert(past_leading_zero(t3)) by {
                if t3.len() == 2 && t3 == seq!['-', '0'] {
                    assert(t3[1] == '.');
                }
            }
            assert forall|q: int| i2 + 1 <= q < i3 implies is_digit(#[trigger] s[q]) by {
                assert(s[q] == frac[q - i2]);
                assert(frac.skip(1)[q - i2 - 1] == frac[q - i2]);
            }
            lemma_read_digits(
                s,
                i2 + 1,
                frac.len() - 1,
                p2.spec_next_column(),
                t3,
                true,
                false,
                false,
            );
            assert(t3 + s.subrange(i2 + 1, i3) =~= t2 + frac);
            assert(steps(p2, frac.len() as int) == steps(
                p2.spec_next_column(),
                frac.len() - 1,
            ));
        } else {
            assert(t2 + frac =~= t2);
        }
    }
    // The exponent.
    let t4 = t2 + frac;
    let p4 = steps(p3, exp.len() as int);
    assert(spec_lex_number(s, i3, p3, t4, has_decimal, false, false) == spec_lex_number(
        s,
        i4,
        p4,
        t,
        has_decimal,
        exp.len() > 0,
        false,
    )) by {
        if exp.len() > 0 {
            assert(s[i3] == exp[0]);
            let t5 = t4.push(exp[0]);
            let q3 = p3.spec_next_column();
            assert(t4.len() > 0);
            if digit_run(exp.skip(1)) {
                assert(past_leading_zero(t5)) by {
                    if t5.len() == 2 && t5 == seq!['-', '0'] {
                        assert(t5[1] == exp[0]);
                    }
                }
                assert forall|q: int| i3 + 1 <= q < i4 implies is_digit(#[trigger] s[q]) by {
                    assert(s[q] == exp[q - i3]);
                    assert(exp.skip(1)[q - i3 - 1] == exp[q - i3]);
                }
                lemma_read_digits(s, i3 + 1, exp.len() - 1, q3, t5, has_decimal, true, true);
                assert(t5 + s.subrange(i3 + 1, i4) =~= t);
                assert(steps(p3, exp.len() as int) == steps(q3, exp.len() - 1));
            } else {
                assert(s[i3 + 1] == exp[1]);
                let t6 = t5.push(exp[1]);
                let q4 = q3.spec_next_column();
                assert(past_leading_zero(t6));
                assert forall|q: int| i3 + 2 <= q < i4 implies is_digit(#[trigger] s[q]) by {
                    assert(s[q] == exp[q - i3]);
                    assert(exp.skip(2)[q - i3 - 2] == exp[q - i3]);
                }
                lemma_read_digits(s, i3 + 2, exp.len() - 2, q4, t6, has_decimal, true, false);
                assert(t6 + s.subrange(i3 + 2, i4) =~= t);
                assert(steps(p3, exp.len() as int) == steps(q3, exp.len() - 1));
                assert(steps(q3, exp.len() - 1) == steps(q4, exp.len() - 2));
            }
        } else {
            assert(t4 + exp =~= t4);
        }
    }
    // What ends the number.
    assert(spec_lex_number(s, i4, p4, t, has_decimal, exp.len() > 0, false) == Ok::<
        (Seq<char>, int, Position),
        SpecLexError,
    >((t, i4, p4)));
    // The text is one that Rust's `f64` parser accepts.
    lemma_json_number_is_float(sign, int_part, frac, exp);
}

/// A number of JSON's grammar is one that Rust's `f64` parser accepts.
#[verifier::spinoff_prover]
pub proof fn lemma_json_number_is_float(
    sign: Seq<char>,
    int_part: Seq<char>,
    frac: Seq<char>,
    exp: Seq<char>,
)
    requires
        json_number_parts(sign, int_part, frac, exp),
    ensures
        is_float_literal(sign + int_part + frac + exp),
{
    let t = sign + int_part + frac + exp;
    assert(digit_run(int_part)) by {
        if int_part == seq!['0'] {
            assert(is_digit(int_part[0]));
        }
    }
    let point = frac.len() > 0;
    let b = if point {
        frac.skip(1)
    } else {
        Seq::<char>::empty()
    };
    let m = decimal_text(int_part, point, b);
    assert(int_part + frac =~= m);
    if exp.len() == 0 {
        lemma_mantissa_is_float(int_part, point, b);
        if sign.len() > 0 {
            assert(t =~= seq!['-'] + m);
        } else {
            assert(t =~= m);
        }
    } else if digit_run(exp.skip(1)) {
        let e = exp.skip(1);
        let none = Seq::<char>::empty();
        lemma_exponents_of_any_length(int_part, point, b, exp[0], none, e);
        assert(exp =~= seq![exp[0]] + none + e);
        if sign.len() > 0 {
            assert(t =~= seq!['-'] + m + seq![exp[0]] + none + e);
        } else {
            assert(t =~= m + seq![exp[0]] + none + e);
        }
    } else {
        let e = exp.skip(2);
        let es = seq![exp[1]];
        lemma_exponents_of_any_length(int_part, point, b, exp[0], es, e);
        assert(exp =~= seq![exp[0]] + es + e);
        if sign.len() > 0 {
            assert(t =~= seq!['-'] + m + seq![exp[0]] + es + e);
        } else {
            assert(t =~= m + seq![exp[0]] + es + e);
        }
    }
}

/// Digits, with or without a fractional part, and with or without a leading minus, are a
/// number that Rust's `f64` parser accepts.
pub proof fn lemma_mantissa_is_float(a: Seq<char>, point: bool, b: Seq<char>)
    requires
        digit_run(a),
        only_digits(b),
    ensures
        is_float_literal(decimal_text(a, point, b)),
        is_float_literal(seq!['-'] + decimal_text(a, point, b)),
{
    let m = decimal_text(a, point, b);
    let u = m.map_values(|c: char| ascii_lower(c));
    assert(u =~= m) by {
        assert forall|q: int| 0 <= q < m.len() implies ascii_lower(m[q]) == m[q] by {
            if point && q == a.len() {
            } else if q < a.len() {
                assert(m[q] == a[q]);
            } else {
                assert(m[q] == b[q - a.len() - 1]);
            }
        }
    }
    assert(is_mantissa(m)) by {
        if point {
            let d = a.len() as int;
            assert(m[d] == '.');
            assert(m.take(d) =~= a);
            assert(m.skip(d + 1) =~= b);
            assert(all_digits(m.take(d)));
            assert(all_digits(m.skip(d + 1)));
        } else {
            assert(all_digits(m));
        }
    }
    assert(m.take(m.len() as int) =~= m);
    assert(m.skip(m.len() as int) =~= Seq::<char>::empty());
    assert(is_exponent_part(u.skip(m.len() as int)));
    assert(is_number_literal(u));
    assert(m[0] == a[0]);
    assert(unsigned_part(m) == m);
    assert(unsigned_part(seq!['-'] + m) =~= m);
}

/// A number of JSON's grammar in brackets is read as the brackets around one number token
/// whose text is exactly that number: `[1.05]` gives `[`, the number `1.05` and `]`.
pub proof fn lemma_json_number_in_brackets(
    sign: Seq<char>,
    int_part: Seq<char>,
    frac: Seq<char>,
    exp: Seq<char>,
)
    requires
        json_number_parts(sign, int_part, frac, exp),
    ensures
        spec_tokenize(seq!['['] + (sign + int_part + frac + exp) + seq![']']) == Ok::<
            Seq<SpecToken>,
            SpecLexError,
        >(
            seq![
                SpecToken::BracketSquareOpen,
                SpecToken::Num(sign + int_part + frac + exp),
                SpecToken::BracketSquareClose,
            ],
        ),
{
    let t = sign + int_part + frac + exp;
    let n = t.len() as int;
    let s = seq!['['] + t + seq![']'];
    let k = letters_of(s);
    let start = Position { row: 1, column: 1 };
    let open = seq![SpecToken::BracketSquareOpen];
    assert(s[0] == '[');
    assert(s[n + 1] == ']');
    assert forall|q: int| 0 <= q < n implies s[1 + q] == #[trigger] t[q] by {
        assert(s[1 + q] == t[q]);
    }
    assert(ends_number(']'));
    let p1 = start.spec_next_column();
    lemma_json_number_read(s, 1, p1, sign, int_part, frac, exp);
    assert(t[0] == s[1]);
    assert(is_digit(t[0]) || t[0] == '-') by {
        if sign.len() > 0 {
            assert(t[0] == sign[0]);
        } else {
            assert(t[0] == int_part[0]);
            if int_part != seq!['0'] {
                assert(is_digit(int_part[0]));
            }
        }
    }
    let q = spec_lex_number_token(s, 1, p1)->Ok_0.2;
    let two = open.push(SpecToken::Num(t));
    let three = two.push(SpecToken::BracketSquareClose);
    assert(spec_lex_tokens(s, k, n + 2, q.spec_next_column(), three) == Ok::<
        Seq<SpecToken>,
        SpecLexError,
    >(three));
    assert(spec_lex_tokens(s, k, n + 1, q, two) == Ok::<Seq<SpecToken>, SpecLexError>(three));
    assert(spec_lex_tokens(s, k, 1, p1, open) == Ok::<Seq<SpecToken>, SpecLexError>(three));
    assert(spec_lex_tokens(s, k, 0, start, Seq::empty()) == Ok::<Seq<SpecToken>, SpecLexError>(
        three,
    )) by {
        assert(Seq::<SpecToken>::empty().push(SpecToken::BracketSquareOpen) == open);
    }
    assert(three =~= seq![
        SpecToken::BracketSquareOpen,
        SpecToken::Num(t),
        SpecToken::BracketSquareClose,
    ]);
}

// ---------------------------------------------------------------------------------------
// `\u` escapes in JSON strings.
// ---------------------------------------------------------------------------------------

/// The hexadecimal digit for `d`, below 16; a letter in upper case where `upper` holds.
pub open spec fn hex_digit_of(d: int, upper: bool) -> char {
    if d < 10 {
        (('0' as int) + d) as char
    } else if upper {
        (('A' as int) + d - 10) as char
    } else {
        (('a' as int) + d - 10) as char
    }
}

/// A hexadecimal digit has its value whatever its case: `F` and `f` are both 15.
pub proof fn lemma_hex_digit_any_case(d: int, upper: bool)
    requires
        0 <= d < 16,
    ensures
        hex_digit_value(hex_digit_of(d, upper)) == Some(d),
        hex_digit_value(hex_digit_of(d, true)) == hex_digit_value(hex_digit_of(d, false)),
{
}

/// The code that four hexadecimal digits spell, the first the most significant.
pub open spec fn hex_code(d: Seq<int>) -> int {
    d[0] * 4096 + d[1] * 256 + d[2] * 16 + d[3]
}

/// A `\u` escape decodes to the character whose code its four digits spell, in either case,
/// for every code that is no surrogate: where `s` holds, from `s[i]` on, a backslash, `u`,
/// the four digits and a closing quote, the string read so far, `text`, ends with that one
/// character, and reading goes on after the quote.
pub proof fn lemma_unicode_escape_decodes(
    s: Seq<char>,
    i: int,
    at: Position,
    text: Seq<char>,
    d: Seq<int>,
    upper: Seq<bool>,
)
    requires
        0 <= i,
        i + 7 <= s.len(),
        d.len() == 4,
        upper.len() == 4,
        forall|j: int| 0 <= j < 4 ==> 0 <= #[trigger] d[j] < 16,
        s[i] == '\\',
        s[i + 1] == 'u',
        forall|j: int| 0 <= j < 4 ==> s[i + 2 + j] == hex_digit_of(d[j], #[trigger] upper[j]),
        s[i + 6] == '"',
        !(0xD800 <= hex_code(d) <= 0xDFFF),
    ensures
        spec_lex_string(s, i, at, text) matches Ok((x, j, _)) && x == text.push(
            hex_code(d) as char,
        ) && j == i + 7,
{
    let p1 = at.spec_next_column();
    let code = hex_code(d);
    assert forall|j: int| 0 <= j < 4 implies hex_digit_value(s[i + 2 + j]) == Some(
        #[trigger] d[j],
    ) by {
        lemma_hex_digit_any_case(d[j], upper[j]);
        assert(s[i + 2 + j] == hex_digit_of(d[j], upper[j]));
    }
    let v1 = d[0];
    let v2 = v1 * 16 + d[1];
    let v3 = v2 * 16 + d[2];
    let v4 = v3 * 16 + d[3];
    assert(v4 == code);
    let q1 = p1.spec_next_column();
    let q2 = q1.spec_next_column();
    let q3 = q2.spec_next_column();
    let q4 = q3.spec_next_column();
    assert(hex_digit_value(s[i + 2 + 0]) == Some(d[0]));
    assert(hex_digit_value(s[i + 2 + 1]) == Some(d[1]));
    assert(hex_digit_value(s[i + 2 + 2]) == Some(d[2]));
    assert(hex_digit_value(s[i + 2 + 3]) == Some(d[3]));
    let ok = Ok::<(int, Position), SpecLexError>((code, q4));
    assert(spec_unicode_escape(s, i + 2, 4, v4, q4) == ok);
    assert(spec_unicode_escape(s, i + 2, 3, v3, q3) == ok);
    assert(spec_unicode_escape(s, i + 2, 2, v2, q2) == ok);
    assert(spec_unicode_escape(s, i + 2, 1, v1, q1) == ok);
    assert(spec_unicode_escape(s, i + 2, 0, 0, p1) == ok);
    assert(simple_escape('u') is None);
    assert(is_scalar_value(code));
    let pushed = text.push(code as char);
    assert(spec_lex_string(s, i + 6, q4.spec_next_column(), pushed) == Ok::<
        (Seq<char>, int, Position),
        SpecLexError,
    >((pushed, i + 7, q4.spec_next_column().spec_next_column())));
}

/// The text `["\uXXXX"]`, with the four digits `d` in either case and no surrogate among the
/// codes they spell, is read as the brackets around a string of the one character with
/// that code.
pub proof fn lemma_unicode_escape_in_brackets(d: Seq<int>, upper: Seq<bool>)
    requires
        d.len() == 4,
        upper.len() == 4,
        forall|j: int| 0 <= j < 4 ==> 0 <= #[trigger] d[j] < 16,
        !(0xD800 <= hex_code(d) <= 0xDFFF),
    ensures
        spec_tokenize(
            seq![
                '[',
                '"',
                '\\',
                'u',
                hex_digit_of(d[0], upper[0]),
                hex_digit_of(d[1], upper[1]),
                hex_digit_of(d[2], upper[2]),
                hex_digit_of(d[3], upper[3]),
                '"',
                ']',
            ],
        ) == Ok::<Seq<SpecToken>, SpecLexError>(
            seq![
                SpecToken::BracketSquareOpen,
                SpecToken::Str(seq![hex_code(d) as char]),
                SpecToken::BracketSquareClose,
            ],
        ),
{
    let s = seq![
        '[',
        '"',
        '\\',
        'u',
        hex_digit_of(d[0], upper[0]),
        hex_digit_of(d[1], upper[1]),
        hex_digit_of(d[2], upper[2]),
        hex_digit_of(d[3], upper[3]),
        '"',
        ']',
    ];
    let k = letters_of(s);
    let start = Position { row: 1, column: 1 };
    let p1 = start.spec_next_column();
    let empty = Seq::<char>::empty();
    assert forall|j: int| 0 <= j < 4 implies s[2 + 2 + j] == hex_digit_of(
        d[j],
        #[trigger] upper[j],
    ) by {
        if j == 0 {
        } else if j == 1 {
        } else if j == 2 {
        } else {
        }
    }
    lemma_unicode_escape_decodes(s, 2, p1, empty, d, upper);
    let c = hex_code(d) as char;
    assert(empty.push(c) =~= seq![c]);
    let q = spec_lex_string(s, 2, p1, empty)->Ok_0.2;
    let open = seq![SpecToken::BracketSquareOpen];
    let two = open.push(SpecToken::Str(seq![c]));
    let three = two.push(SpecToken::BracketSquareClose);
    assert(spec_lex_tokens(s, k, 10, q.spec_next_column(), three) == Ok::<
        Seq<SpecToken>,
        SpecLexError,
    >(three));
    assert(spec_lex_tokens(s, k, 9, q, two) == Ok::<Seq<SpecToken>, SpecLexError>(three));
    assert(spec_lex_tokens(s, k, 1, p1, open) == Ok::<Seq<SpecToken>, SpecLexError>(three));
    assert(spec_lex_tokens(s, k, 0, start, Seq::empty()) == Ok::<Seq<SpecToken>, SpecLexError>(
        three,
    )) by {
        assert(Seq::<SpecToken>::empty().push(SpecToken::BracketSquareOpen) == open);
    }
    assert(three =~= seq![
        SpecToken::BracketSquareOpen,
        SpecToken::Str(seq![c]),
        SpecToken::BracketSquareClose,
    ]);
}

/// A `\u` escape whose digits spell a surrogate, `D800` to `DFFF`, is refused: the string
/// is not read.
pub proof fn lemma_surrogate_escape_refused(
    s: Seq<char>,
    i: int,
    at: Position,
    text: Seq<char>,
    d: Seq<int>,
    upper: Seq<bool>,
)
    requires
        0 <= i,
        i + 7 <= s.len(),
        d.len() == 4,
        upper.len() == 4,
        forall|j: int| 0 <= j < 4 ==> 0 <= #[trigger] d[j] < 16,
        s[i] == '\\',
        s[i + 1] == 'u',
        forall|j: int| 0 <= j < 4 ==> s[i + 2 + j] == hex_digit_of(d[j], #[trigger] upper[j]),
        0xD800 <= hex_code(d) <= 0xDFFF,
    ensures
        spec_lex_string(s, i, at, text) matches Err(SpecLexError::InvalidCodePoint { .. }),
{
    let p1 = at.spec_next_column();
    let code = hex_code(d);
    assert forall|j: int| 0 <= j < 4 implies hex_digit_value(s[i + 2 + j]) == Some(
        #[trigger] d[j],
    ) by {
        lemma_hex_digit_any_case(d[j], upper[j]);
        assert(s[i + 2 + j] == hex_digit_of(d[j], upper[j]));
    }
    let v1 = d[0];
    let v2 = v1 * 16 + d[1];
    let v3 = v2 * 16 + d[2];
    let v4 = v3 * 16 + d[3];
    let q1 = p1.spec_next_column();
    let q2 = q1.spec_next_column();
    let q3 = q2.spec_next_column();
    let q4 = q3.spec_next_column();
    assert(hex_digit_value(s[i + 2 + 0]) == Some(d[0]));
    assert(hex_digit_value(s[i + 2 + 1]) == Some(d[1]));
    assert(hex_digit_value(s[i + 2 + 2]) == Some(d[2]));
    assert(hex_digit_value(s[i + 2 + 3]) == Some(d[3]));
    let ok = Ok::<(int, Position), SpecLexError>((code, q4));
    assert(spec_unicode_escape(s, i + 2, 4, v4, q4) == ok);
    assert(spec_unicode_escape(s, i + 2, 3, v3, q3) == ok);
    assert(spec_unicode_escape(s, i + 2, 2, v2, q2) == ok);
    assert(spec_unicode_escape(s, i + 2, 1, v1, q1) == ok);
    assert(spec_unicode_escape(s, i + 2, 0, 0, p1) == ok);
    assert(simple_escape('u') is None);
    assert(!is_scalar_value(code));
}

/// The two-character escapes of JSON: a backslash followed by `"`, `\`, `/`, `b`, `f`, `n`,
/// `r` or `t` stands for a quote, a backslash, a slash, backspace, form feed, line feed,
/// carriage return or tab.
pub open spec fn json_escape_pair(e: char, c: char) -> bool {
    ||| e == '"' && c == '"'
    ||| e == '\\' && c == '\\'
    ||| e == '/' && c == '/'
    ||| e == 'b' && c == '\u{8}'
    ||| e == 'f' && c == '\u{c}'
    ||| e == 'n' && c == '\n'
    ||| e == 'r' && c == '\r'
    ||| e == 't' && c == '\t'
}

/// Each two-character escape is read as the character it stands for: where `s` holds, from
/// `s[i]` on, a backslash, the escape letter and a closing quote, the string read so far
/// ends with that character and reading goes on after the quote.
pub proof fn lemma_simple_escape_decodes(
    s: Seq<char>,
    i: int,
    at: Position,
    text: Seq<char>,
    e: char,
    c: char,
)
    requires
        0 <= i,
        i + 3 <= s.len(),
        json_escape_pair(e, c),
        s[i] == '\\',
        s[i + 1] == e,
        s[i + 2] == '"',
    ensures
        spec_lex_string(s, i, at, text) matches Ok((x, j, _)) && x == text.push(c) && j == i + 3,
{
    assert(simple_escape(e) == Some(c));
    let p = at.spec_next_column().spec_next_column();
    assert(spec_lex_string(s, i + 2, p, text.push(c)) == Ok::<
        (Seq<char>, int, Position),
        SpecLexError,
    >((text.push(c), i + 3, p.spec_next_column())));
}

/// A number whose integer part is a `0` followed by another digit is refused as having a
/// leading zero, with or without a minus in front: `01`, `-07`.
pub proof fn lemma_leading_zero_refused(s: Seq<char>, i: int, at: Position, minus: bool)
    requires
        0 <= i,
        i + 2 + (if minus { 1int } else { 0int }) <= s.len(),
        minus ==> s[i] == '-',
        s[i + (if minus { 1int } else { 0int })] == '0',
        '1' <= s[i + 1 + (if minus { 1int } else { 0int })] <= '9',
    ensures
        spec_lex_number_token(s, i, at) matches Err(SpecLexError::LeadingZeros { .. }),
{
    let empty = Seq::<char>::empty();
    let p1 = at.spec_next_column();
    if minus {
        let t1 = empty.push('-');
        let t2 = t1.push('0');
        assert(t2 =~= seq!['-', '0']);
        assert(t1 != seq!['0']) by {
            assert(t1[0] == '-');
        }
        assert(t1 != seq!['-', '0']);
        assert(spec_lex_number(s, i + 2, p1.spec_next_column(), t2, false, false, false)
            is Err);
        assert(spec_lex_number(s, i + 1, p1, t1, false, false, true) is Err);
    } else {
        let t1 = empty.push('0');
        assert(t1 =~= seq!['0']);
        assert(empty.len() != seq!['0'].len());
        assert(empty.len() != seq!['-', '0'].len());
        assert(spec_lex_number(s, i + 1, p1, t1, false, false, false) is Err);
    }
}

/// The keywords `true`, `false` and `null` in brackets are read as the brackets around the
/// keyword's token.
pub proof fn lemma_keyword_in_brackets(word: Seq<char>, token: SpecToken)
    requires
        (word == seq!['t', 'r', 'u', 'e'] && token == SpecToken::True) || (word == seq![
            'f',
            'a',
            'l',
            's',
            'e',
        ] && token == SpecToken::False) || (word == seq!['n', 'u', 'l', 'l'] && token
            == SpecToken::Null),
    ensures
        spec_tokenize(seq!['['] + word + seq![']']) == Ok::<Seq<SpecToken>, SpecLexError>(
            seq![SpecToken::BracketSquareOpen, token, SpecToken::BracketSquareClose],
        ),
{
    let s = seq!['['] + word + seq![']'];
    let n = word.len() as int;
    let k = letters_of(s);
    let start = Position { row: 1, column: 1 };
    let p1 = start.spec_next_column();
    assert(s[0] == '[');
    assert(s[n + 1] == ']');
    assert(!k[n + 1]);
    assert forall|q: int| 1 <= q < n + 1 implies #[trigger] k[q] by {
        assert(s[q] == word[q - 1]);
    }
    lemma_run_to(s, k, 1, n + 1);
    assert(s.subrange(1, n + 1) =~= word);
    assert(s[1] == word[0]);
    let open = seq![SpecToken::BracketSquareOpen];
    let two = open.push(token);
    let three = two.push(SpecToken::BracketSquareClose);
    let q = advanced(p1, n);
    assert(spec_lex_keyword(s, k, 1, p1) == Ok::<(SpecToken, int, Position), SpecLexError>(
        (token, n + 1, q),
    ));
    assert(spec_lex_tokens(s, k, n + 2, q.spec_next_column(), three) == Ok::<
        Seq<SpecToken>,
        SpecLexError,
    >(three));
    assert(spec_lex_tokens(s, k, n + 1, q, two) == Ok::<Seq<SpecToken>, SpecLexError>(three));
    assert(spec_lex_tokens(s, k, 1, p1, open) == Ok::<Seq<SpecToken>, SpecLexError>(three));
    assert(spec_lex_tokens(s, k, 0, start, Seq::empty()) == Ok::<Seq<SpecToken>, SpecLexError>(
        three,
    )) by {
        assert(Seq::<SpecToken>::empty().push(SpecToken::BracketSquareOpen) == open);
    }
    assert(three =~= seq![SpecToken::BracketSquareOpen, token, SpecToken::BracketSquareClose]);
}

/// A run of letters from `s[i]` on that ends at `j`, before a character that is no letter.
proof fn lemma_run_to(s: Seq<char>, k: Seq<bool>, i: int, j: int)
    requires
        0 <= i <= j < s.len(),
        forall|q: int| i <= q < j ==> #[trigger] k[q],
        !k[j],
    ensures
        alphabetic_run_end(s, k, i) == j,
    decreases j - i,
{
    if i < j {
        lemma_run_to(s, k, i + 1, j);
    }
}

// ---------------------------------------------------------------------------------------
// Keywords and raw control characters.
// ---------------------------------------------------------------------------------------

/// A run of letters is read as a keyword exactly when it is `true`, `false` or `null`, and
/// then as that keyword; any other run is refused as an unknown keyword, named in full.
pub proof fn lemma_keywords_exact(s: Seq<char>, k: Seq<bool>, i: int, at: Position)
    ensures
        ({
            let word = s.subrange(i, alphabetic_run_end(s, k, i));
            match spec_lex_keyword(s, k, i, at) {
                Ok((t, _, _)) => (word == seq!['t', 'r', 'u', 'e'] && t == SpecToken::True) || (
                word == seq!['f', 'a', 'l', 's', 'e'] && t == SpecToken::False) || (word == seq![
                    'n',
                    'u',
                    'l',
                    'l',
                ] && t == SpecToken::Null),
                Err(e) => e == SpecLexError::UnknownKeyword {
                    word,
                    at: advanced(at, alphabetic_run_end(s, k, i) - i),
                } && word != seq!['t', 'r', 'u', 'e'] && word != seq!['f', 'a', 'l', 's', 'e']
                    && word != seq!['n', 'u', 'l', 'l'],
            }
        }),
{
}

/// Whether `c` is a control character, as Unicode's general category Cc has them: the C0
/// controls `U+0000` to `U+001F`, DELETE `U+007F` and the C1 controls `U+0080` to `U+009F`.
pub open spec fn cc_control(c: char) -> bool {
    (c as int) <= 0x1F || (0x7F <= (c as int) && (c as int) <= 0x9F)
}

/// A raw control character inside a string is refused where it stands: a line feed,
/// carriage return or tab as such, any other with its code.
pub proof fn lemma_raw_control_refused(s: Seq<char>, i: int, at: Position, text: Seq<char>)
    requires
        0 <= i < s.len(),
        cc_control(s[i]),
    ensures
        (s[i] == '\n' || s[i] == '\r' || s[i] == '\t') ==> spec_lex_string(s, i, at, text)
            == Err::<(Seq<char>, int, Position), SpecLexError>(
            SpecLexError::UnescapedControl { at },
        ),
        !(s[i] == '\n' || s[i] == '\r' || s[i] == '\t') ==> spec_lex_string(s, i, at, text)
            == Err::<(Seq<char>, int, Position), SpecLexError>(
            SpecLexError::UnescapedControlCode { code: s[i] as u32, at },
        ),
{
}

} // verus!

use vstd::prelude::*;
use crate::chars::{hex_digit_value, is_control_char, is_scalar_value};
use crate::error::SpecLexError;
use crate::lexer::{advanced, simple_escape, spec_lex_string, spec_unicode_escape};
use crate::position::Position;

verus! {

/// The lower-case hexadecimal digit for `d`, below 16.
pub open spec fn hex_char(d: int) -> char {
    if d < 10 {
        (('0' as int) + d) as char
    } else {
        (('a' as int) + d - 10) as char
    }
}

/// How `c` is written inside a string literal: `"` and `\` behind a backslash, a control
/// character as a `\u` escape of four lower-case hexadecimal digits, any other character as
/// itself.
pub open spec fn escape_char(c: char) -> Seq<char> {
    if c == '"' {
        seq!['\\', '"']
    } else if c == '\\' {
        seq!['\\', '\\']
    } else if is_control_char(c) {
        let n = c as int;
        seq![
            '\\',
            'u',
            hex_char(n / 4096),
            hex_char((n / 256) % 16),
            hex_char((n / 16) % 16),
            hex_char(n % 16),
        ]
    } else {
        seq![c]
    }
}

/// How the text `s` is written inside a string literal.
pub open spec fn escape_text(s: Seq<char>) -> Seq<char>
    decreases s.len(),
{
    if s.len() == 0 {
        Seq::empty()
    } else {
        escape_char(s[0]) + escape_text(s.skip(1))
    }
}

proof fn lemma_control_code(c: char)
    requires
        is_control_char(c),
    ensures
        0 <= (c as int) < 160,
{
}

proof fn lemma_hex_char_value(d: int)
    requires
        0 <= d < 16,
    ensures
        hex_digit_value(hex_char(d)) == Some(d),
{
}

/// Reading back an escape: the string lexer reads the escaped text of `s` followed by a
/// closing quote as `s`, and stops right after the quote, one column further per character
/// read.
pub proof fn lemma_read_escaped(t: Seq<char>, i: int, at: Position, text: Seq<char>, s: Seq<char>)
    requires
        0 <= i,
        i + escape_text(s).len() < t.len(),
        t.subrange(i, i + escape_text(s).len()) == escape_text(s),
        t[i + escape_text(s).len()] == '"',
        at.column + escape_text(s).len() + 1 <= i32::MAX,
    ensures
        spec_lex_string(t, i, at, text) == Ok::<_, SpecLexError>(
            (
                text + s,
                i + escape_text(s).len() + 1,
                advanced(at, (escape_text(s).len() + 1) as int),
            ),
        ),
    decreases s.len(),
{
    let e = escape_text(s);
    if s.len() == 0 {
        assert(text + s =~= text);
    } else {
        let c = s[0];
        let ec = escape_char(c);
        let rest = escape_text(s.skip(1));
        assert(e == ec + rest);
        assert(t.subrange(i, i + ec.len()) =~= ec) by {
            assert forall|m: int| 0 <= m < ec.len() implies t.subrange(i, i + ec.len())[m]
                == ec[m] by {
                assert(t.subrange(i, i + e.len())[m] == e[m]);
            }
        }
        assert(t.subrange(i + ec.len(), i + ec.len() + rest.len()) =~= rest) by {
            assert forall|m: int| 0 <= m < rest.len() implies t.subrange(
                i + ec.len(),
                i + ec.len() + rest.len(),
            )[m] == rest[m] by {
                assert(t.subrange(i, i + e.len())[ec.len() + m] == e[ec.len() + m]);
            }
        }
        let n = ec.len() as int;
        assert(t[i] == ec[0]) by {
            assert(t.subrange(i, i + ec.len())[0] == ec[0]);
        }
        let next = advanced(at, n);
        lemma_read_escaped(t, i + n, next, text.push(c), s.skip(1));
        assert(text.push(c) + s.skip(1) =~= text + s);
        if c == '"' || c == '\\' {
            assert(t[i + 1] == ec[1]) by {
                assert(t.subrange(i, i + ec.len())[1] == ec[1]);
            }
            assert(simple_escape(t[i + 1]) == Some(c));
        } else if is_control_char(c) {
            let code = c as int;
            lemma_control_code(c);
            assert(code / 4096 == 0 && (code / 256) % 16 == 0);
            let hi = (code / 16) % 16;
            let lo = code % 16;
            assert(code == hi * 16 + lo && 0 <= hi < 16 && 0 <= lo < 16) by (nonlinear_arith)
                requires
                    0 <= code < 160,
                    hi == (code / 16) % 16,
                    lo == code % 16,
            ;
            assert forall|m: int| 1 <= m < 6 implies t[i + m] == ec[m] by {
                assert(t.subrange(i, i + ec.len())[m] == ec[m]);
            }
            lemma_hex_char_value(0);
            lemma_hex_char_value(hi);
            lemma_hex_char_value(lo);
            let p1 = at.spec_next_column();
            let p2 = p1.spec_next_column();
            let p3 = p2.spec_next_column();
            let p4 = p3.spec_next_column();
            let p5 = p4.spec_next_column();
            assert(p5 == advanced(at, 5));
            assert(hex_digit_value(t[i + 2]) == Some(0int));
            assert(hex_digit_value(t[i + 3]) == Some(0int));
            assert(hex_digit_value(t[i + 4]) == Some(hi));
            assert(hex_digit_value(t[i + 5]) == Some(lo));
            assert(spec_unicode_escape(t, i + 2, 4, hi * 16 + lo, p5) == Ok::<_, SpecLexError>(
                (code, p5),
            ));
            assert(spec_unicode_escape(t, i + 2, 3, hi, p4) == Ok::<_, SpecLexError>((code, p5)));
            assert(spec_unicode_escape(t, i + 2, 2, 0, p3) == Ok::<_, SpecLexError>((code, p5)));
            assert(spec_unicode_escape(t, i + 2, 1, 0, p2) == Ok::<_, SpecLexError>((code, p5)));
            assert(spec_unicode_escape(t, i + 2, 0, 0, p1) == Ok::<_, SpecLexError>(
                (code, advanced(at, 5)),
            ));
            assert(is_scalar_value(code));
            assert((code as char) == c);
        }
    }
}

} // verus!

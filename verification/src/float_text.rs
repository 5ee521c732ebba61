use vstd::prelude::*;
use crate::chars::{char_from_code, is_digit, lemma_same_letters};

verus! {

// Rust's `f64` parser accepts, case aside, the strings of this grammar:
//     Float  ::= Sign? ( 'inf' | 'infinity' | 'nan' | Number )
//     Number ::= ( Digit+ | Digit+ '.' Digit* | Digit* '.' Digit+ ) Exp?
//     Exp    ::= 'e' Sign? Digit+
//     Sign   ::= [+-]
//     Digit  ::= [0-9]

/// `c` in lower case, where it is an ASCII capital letter.
pub open spec fn ascii_lower(c: char) -> char {
    if 'A' <= c <= 'Z' {
        ((c as int) + 32) as char
    } else {
        c
    }
}

/// Whether every character of `t` is a decimal digit.
pub open spec fn all_digits(t: Seq<char>) -> bool {
    forall|k: int| 0 <= k < t.len() ==> is_digit(#[trigger] t[k])
}

/// `Digit+ | Digit+ '.' Digit* | Digit* '.' Digit+`
pub open spec fn is_mantissa(m: Seq<char>) -> bool {
    ||| m.len() > 0 && all_digits(m)
    ||| exists|d: int|
        0 <= d < m.len() && #[trigger] m[d] == '.' && all_digits(m.take(d)) && all_digits(
            m.skip(d + 1),
        ) && m.len() > 1
}

/// `Exp?`, where `Exp ::= 'e' Sign? Digit+`
pub open spec fn is_exponent_part(x: Seq<char>) -> bool {
    ||| x.len() == 0
    ||| x.len() > 1 && x[0] == 'e' && all_digits(x.skip(1))
    ||| x.len() > 2 && x[0] == 'e' && (x[1] == '+' || x[1] == '-') && all_digits(x.skip(2))
}

/// `Number`, for text already in lower case.
pub open spec fn is_number_literal(u: Seq<char>) -> bool {
    exists|e: int| 0 <= e <= u.len() && is_mantissa(u.take(e)) && is_exponent_part(u.skip(e))
}

/// `t` without its leading sign, if it has one.
pub open spec fn unsigned_part(t: Seq<char>) -> Seq<char> {
    if t.len() > 0 && (t[0] == '+' || t[0] == '-') {
        t.skip(1)
    } else {
        t
    }
}

/// Whether Rust's `f64` parser accepts `t`.
pub open spec fn is_float_literal(t: Seq<char>) -> bool {
    let u = unsigned_part(t).map_values(|c: char| ascii_lower(c));
    ||| u == seq!['i', 'n', 'f']
    ||| u == seq!['i', 'n', 'f', 'i', 'n', 'i', 't', 'y']
    ||| u == seq!['n', 'a', 'n']
    ||| is_number_literal(u)
}

/// `c` in lower case, where it is an ASCII capital letter.
fn to_ascii_lower(c: char) -> (r: char)
    ensures
        r == ascii_lower(c),
{
    if 'A' <= c && c <= 'Z' {
        match char_from_code((c as u32) + 32) {
            Some(l) => l,
            None => c,
        }
    } else {
        c
    }
}

/// Whether `t` is a number that Rust's `f64` parser accepts.
pub fn is_float_text(t: &Vec<char>) -> (r: bool)
    ensures
        r == is_float_literal(t@),
{
    let start: usize = if t.len() > 0 && (t[0] == '+' || t[0] == '-') {
        1
    } else {
        0
    };
    let ghost body = unsigned_part(t@);
    assert(body == t@.skip(start as int));
    let mut u: Vec<char> = Vec::new();
    let mut k: usize = start;
    while k < t.len()
        invariant
            start <= k <= t.len(),
            body == t@.skip(start as int),
            u@ == body.take(k - start).map_values(|c: char| ascii_lower(c)),
        decreases t.len() - k,
    {
        u.push(to_ascii_lower(t[k]));
        assert(body.take(k + 1 - start) == body.take(k - start).push(t@[k as int]));
        k = k + 1;
    }
    assert(body.take(t.len() - start) == body);
    let n = u.len();
    let inf = n == 3 && u[0] == 'i' && u[1] == 'n' && u[2] == 'f';
    let infinity = n == 8 && u[0] == 'i' && u[1] == 'n' && u[2] == 'f' && u[3] == 'i' && u[4]
        == 'n' && u[5] == 'i' && u[6] == 't' && u[7] == 'y';
    let nan = n == 3 && u[0] == 'n' && u[1] == 'a' && u[2] == 'n';
    proof {
        let w1 = seq!['i', 'n', 'f'];
        let w2 = seq!['i', 'n', 'f', 'i', 'n', 'i', 't', 'y'];
        let w3 = seq!['n', 'a', 'n'];
        if inf {
            assert(u@ =~= w1);
        }
        lemma_same_letters(u@, w1);
        if infinity {
            assert(u@ =~= w2);
        }
        lemma_same_letters(u@, w2);
        if nan {
            assert(u@ =~= w3);
        }
        lemma_same_letters(u@, w3);
    }
    inf || infinity || nan || is_number_text(&u)
}


/// The characters of a mantissa are digits and decimal points.
proof fn lemma_mantissa_chars(m: Seq<char>)
    requires
        is_mantissa(m),
    ensures
        forall|k: int| 0 <= k < m.len() ==> is_digit(#[trigger] m[k]) || m[k] == '.',
{
    if !(m.len() > 0 && all_digits(m)) {
        let d = choose|d: int|
            0 <= d < m.len() && #[trigger] m[d] == '.' && all_digits(m.take(d)) && all_digits(
                m.skip(d + 1),
            ) && m.len() > 1;
        assert forall|k: int| 0 <= k < m.len() implies is_digit(#[trigger] m[k]) || m[k] == '.' by {
            if k < d {
                assert(m.take(d)[k] == m[k]);
            } else if k > d {
                assert(m.skip(d + 1)[k - d - 1] == m[k]);
            }
        }
    }
}

/// A number splits at its first `e`: what comes before is the mantissa, the rest the
/// exponent part.
proof fn lemma_number_split(u: Seq<char>, p: int)
    requires
        0 <= p <= u.len(),
        forall|k: int| 0 <= k < p ==> u[k] != 'e',
        p < u.len() ==> u[p] == 'e',
    ensures
        is_number_literal(u) == (is_mantissa(u.take(p)) && is_exponent_part(u.skip(p))),
{
    if is_number_literal(u) {
        let e = choose|e: int|
            0 <= e <= u.len() && is_mantissa(u.take(e)) && is_exponent_part(u.skip(e));
        if e < p {
            assert(u.skip(e)[0] == u[e]);
        } else if e > p {
            lemma_mantissa_chars(u.take(e));
            assert(u.take(e)[p] == u[p]);
        }
    }
}

/// Whether the first `p` characters of `u` form a mantissa.
fn is_mantissa_text(u: &Vec<char>, p: usize) -> (r: bool)
    requires
        p <= u.len(),
    ensures
        r == is_mantissa(u@.take(p as int)),
{
    let ghost m = u@.take(p as int);
    let mut dot: Option<usize> = None;
    let mut k: usize = 0;
    while k < p
        invariant
            k <= p <= u.len(),
            m == u@.take(p as int),
            match dot {
                None => forall|j: int| 0 <= j < k ==> is_digit(#[trigger] m[j]),
                Some(d) => d < k && m[d as int] == '.' && forall|j: int|
                    0 <= j < k && j != d ==> is_digit(#[trigger] m[j]),
            },
        decreases p - k,
    {
        let c = u[k];
        if '0' <= c && c <= '9' {
        } else if c == '.' {
            match dot {
                Some(d) => {
                    proof {
                        assert(m[k as int] == '.');
                        if is_mantissa(m) {
                            let d2 = choose|d2: int|
                                0 <= d2 < m.len() && #[trigger] m[d2] == '.' && all_digits(
                                    m.take(d2),
                                ) && all_digits(m.skip(d2 + 1)) && m.len() > 1;
                            if d2 <= d {
                                assert(m.skip(d2 + 1)[k - d2 - 1] == m[k as int]);
                            } else {
                                assert(m.take(d2)[d as int] == m[d as int]);
                            }
                        }
                    }
                    return false;
                },
                None => {
                    dot = Some(k);
                },
            }
        } else {
            proof {
                assert(m[k as int] == c);
                if is_mantissa(m) {
                    lemma_mantissa_chars(m);
                }
            }
            return false;
        }
        k = k + 1;
    }
    match dot {
        None => {
            proof {
                if p == 0 && is_mantissa(m) {
                    let d2 = choose|d2: int|
                        0 <= d2 < m.len() && #[trigger] m[d2] == '.' && all_digits(m.take(d2))
                            && all_digits(m.skip(d2 + 1)) && m.len() > 1;
                }
                if p > 0 {
                    assert(all_digits(m));
                }
            }
            p > 0
        },
        Some(d) => {
            proof {
                assert(!all_digits(m) || m.len() == 0) by {
                    assert(!is_digit(m[d as int]));
                }
                assert(all_digits(m.take(d as int))) by {
                    assert forall|j: int| 0 <= j < d implies is_digit(
                        #[trigger] m.take(d as int)[j],
                    ) by {
                        assert(m.take(d as int)[j] == m[j]);
                    }
                }
                assert(all_digits(m.skip(d + 1))) by {
                    assert forall|j: int| 0 <= j < m.len() - d - 1 implies is_digit(
                        #[trigger] m.skip(d + 1)[j],
                    ) by {
                        assert(m.skip(d + 1)[j] == m[j + d + 1]);
                    }
                }
                if p > 1 {
                    assert(m[d as int] == '.');
                } else if is_mantissa(m) {
                    let d2 = choose|d2: int|
                        0 <= d2 < m.len() && #[trigger] m[d2] == '.' && all_digits(m.take(d2))
                            && all_digits(m.skip(d2 + 1)) && m.len() > 1;
                }
            }
            p > 1
        },
    }
}

/// Whether all the characters of `u` from index `from` on are digits.
fn digits_from(u: &Vec<char>, from: usize) -> (r: bool)
    requires
        from <= u.len(),
    ensures
        r == all_digits(u@.skip(from as int)),
{
    let mut k: usize = from;
    while k < u.len()
        invariant
            from <= k <= u.len(),
            forall|j: int| from <= j < k ==> is_digit(#[trigger] u@[j]),
        decreases u.len() - k,
    {
        let c = u[k];
        if !('0' <= c && c <= '9') {
            assert(u@.skip(from as int)[k - from] == c);
            return false;
        }
        k = k + 1;
    }
    assert forall|j: int| 0 <= j < u@.skip(from as int).len() implies is_digit(
        #[trigger] u@.skip(from as int)[j],
    ) by {
        assert(u@.skip(from as int)[j] == u@[j + from]);
    }
    true
}

/// Whether `u` is a number in lower case, as the grammar above has it.
fn is_number_text(u: &Vec<char>) -> (r: bool)
    ensures
        r == is_number_literal(u@),
{
    let mut p: usize = 0;
    while p < u.len() && u[p] != 'e'
        invariant
            p <= u.len(),
            forall|k: int| 0 <= k < p ==> u@[k] != 'e',
        decreases u.len() - p,
    {
        p = p + 1;
    }
    proof {
        lemma_number_split(u@, p as int);
    }
    let mantissa = is_mantissa_text(u, p);
    let ghost x = u@.skip(p as int);
    let exponent = if p == u.len() {
        true
    } else {
        assert(x[0] == 'e');
        if u.len() - p > 2 && (u[p + 1] == '+' || u[p + 1] == '-') {
            assert(x[1] == u@[p + 1]);
            assert(x.skip(2) == u@.skip(p + 2));
            assert(x.skip(1)[0] == x[1]);
            digits_from(u, p + 2)
        } else if u.len() - p > 1 {
            assert(x.skip(1) == u@.skip(p + 1));
            assert(x[1] == u@[p + 1]);
            digits_from(u, p + 1)
        } else {
            false
        }
    };
    mantissa && exponent
}

} // verus!

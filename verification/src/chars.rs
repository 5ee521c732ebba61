use vstd::prelude::*;

verus! {

/// Whether `c` has Unicode's White_Space property, which `char::is_whitespace` answers: the
/// 25 code points that Unicode's PropList.txt lists for it.
pub open spec fn is_white_space(c: char) -> bool {
    ||| '\u{9}' <= c <= '\u{d}'
    ||| c == ' '
    ||| c == '\u{85}'
    ||| c == '\u{a0}'
    ||| c == '\u{1680}'
    ||| '\u{2000}' <= c <= '\u{200a}'
    ||| c == '\u{2028}'
    ||| c == '\u{2029}'
    ||| c == '\u{202f}'
    ||| c == '\u{205f}'
    ||| c == '\u{3000}'
}

/// Whether `c` is in Unicode's general category Cc, which `char::is_control` answers: the
/// C0 controls, DELETE and the C1 controls.
pub open spec fn is_control_char(c: char) -> bool {
    c <= '\u{1f}' || '\u{7f}' <= c <= '\u{9f}'
}

/// Whether `c`, a character beyond ASCII, has Unicode's Alphabetic property: what
/// `char::is_alphabetic` answers for it.
pub uninterp spec fn alphabetic_property(c: char) -> bool;

/// Whether `c` is an ASCII letter.
pub open spec fn is_ascii_letter(c: char) -> bool {
    'a' <= c <= 'z' || 'A' <= c <= 'Z'
}

/// Whether `c` has Unicode's Alphabetic property, which `char::is_alphabetic` answers. Among
/// the ASCII characters exactly the 52 letters have it, as Unicode's
/// DerivedCoreProperties.txt lists; beyond ASCII the answer is named.
pub open spec fn is_letter(c: char) -> bool {
    if c <= '\u{7f}' {
        is_ascii_letter(c)
    } else {
        alphabetic_property(c)
    }
}

/// Whether `c` is white space.
pub fn is_whitespace(c: char) -> (r: bool)
    ensures
        r == is_white_space(c),
{
    ('\u{9}' <= c && c <= '\u{d}') || c == ' ' || c == '\u{85}' || c == '\u{a0}' || c
        == '\u{1680}' || ('\u{2000}' <= c && c <= '\u{200a}') || c == '\u{2028}' || c
        == '\u{2029}' || c == '\u{202f}' || c == '\u{205f}' || c == '\u{3000}'
}

/// Whether `c` is a control character.
pub fn is_control(c: char) -> (r: bool)
    ensures
        r == is_control_char(c),
{
    c <= '\u{1f}' || ('\u{7f}' <= c && c <= '\u{9f}')
}

/// Calls `char::is_alphabetic`. Claimed: the answer depends on `c` alone; among ASCII
/// characters it is true exactly for the letters `a` to `z` and `A` to `Z`, as the Unicode
/// tables that the documentation names list; beyond ASCII it is named
/// [`alphabetic_property`], and which characters have the property is left unsaid.
#[verifier::external_body]
pub(crate) fn is_alphabetic(c: char) -> (r: bool)
    ensures
        c <= '\u{7f}' ==> r == is_ascii_letter(c),
        c > '\u{7f}' ==> r == alphabetic_property(c),
{
    c.is_alphabetic()
}

/// Which of the characters of `s` are letters, one for one.
pub open spec fn letters_of(s: Seq<char>) -> Seq<bool> {
    s.map_values(|c: char| is_letter(c))
}

/// Which of the characters `chars` are letters, one for one.
pub fn mark_letters(chars: &Vec<char>) -> (r: Vec<bool>)
    ensures
        r@ == letters_of(chars@),
{
    let mut r: Vec<bool> = Vec::new();
    let mut k: usize = 0;
    while k < chars.len()
        invariant
            k <= chars.len(),
            r@ == letters_of(chars@).take(k as int),
        decreases chars.len() - k,
    {
        r.push(is_alphabetic(chars[k]));
        assert(letters_of(chars@).take(k + 1) == letters_of(chars@).take(k as int).push(
            is_letter(chars@[k as int]),
        ));
        k = k + 1;
    }
    assert(letters_of(chars@).take(chars.len() as int) == letters_of(chars@));
    r
}

/// Whether `code` is a Unicode scalar value, that is, the code of some `char`.
pub open spec fn is_scalar_value(code: int) -> bool {
    (0 <= code < 0xD800) || (0xE000 <= code <= 0x10FFFF)
}

/// Calls `char::from_u32`. Claimed, as its documentation says: it gives the character
/// whose code is `code` exactly when `code` is a Unicode scalar value, and `None` otherwise.
#[verifier::external_body]
pub(crate) fn char_from_code(code: u32) -> (r: Option<char>)
    ensures
        r is Some <==> is_scalar_value(code as int),
        r matches Some(c) ==> c as int == code as int,
{
    char::from_u32(code)
}

/// `String::push` appends one character at the end, as its documentation says.
pub assume_specification[ std::string::String::push ](s: &mut std::string::String, ch: char)
    ensures
        final(s)@ == old(s)@.push(ch),
;

/// Whether `c` is an ASCII decimal digit.
pub open spec fn is_digit(c: char) -> bool {
    '0' <= c <= '9'
}

/// The value of `c` as an ASCII hexadecimal digit (what `char::is_ascii_hexdigit` accepts).
pub open spec fn hex_digit_value(c: char) -> Option<int> {
    if '0' <= c <= '9' {
        Some(c as int - '0' as int)
    } else if 'a' <= c <= 'f' {
        Some(c as int - 'a' as int + 10)
    } else if 'A' <= c <= 'F' {
        Some(c as int - 'A' as int + 10)
    } else {
        None
    }
}

/// The value of `c` as an ASCII hexadecimal digit, if it is one.
pub fn hex_digit(c: char) -> (r: Option<u32>)
    ensures
        match hex_digit_value(c) {
            Some(d) => r == Some(d as u32),
            None => r is None,
        },
{
    if '0' <= c && c <= '9' {
        Some((c as u32) - ('0' as u32))
    } else if 'a' <= c && c <= 'f' {
        Some((c as u32) - ('a' as u32) + 10)
    } else if 'A' <= c && c <= 'F' {
        Some((c as u32) - ('A' as u32) + 10)
    } else {
        None
    }
}

/// The characters of `s`, in order.
pub fn chars_of(s: &str) -> (r: Vec<char>)
    ensures
        r@ == s@,
{
    let mut r: Vec<char> = Vec::new();
    for c in it: s.chars()
        invariant
            r@ == it.seq().take(it.index() as int),
    {
        r.push(c);
    }
    r
}

/// Equal words have the same letter at each place.
pub(crate) proof fn lemma_same_letters(v: Seq<char>, w: Seq<char>)
    ensures
        v == w ==> forall|m: int| 0 <= m < w.len() ==> #[trigger] v[m] == w[m],
{
}

} // verus!

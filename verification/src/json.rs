use vstd::prelude::*;
use crate::chars::{chars_of, is_white_space, is_whitespace, lemma_same_letters, letters_of};
use crate::error::{JsonError, SpecJsonError, SpecLexError};
use crate::lexer::{fits_positions, lemma_tokenize_shape, spec_tokenize, tokenize};
use crate::parser::{MAX_DEPTH, parse_tokens, spec_parse_tokens};
use crate::spelling::{
    lemma_parse_gives_bounded_container, lemma_parse_keeps_numbers, lemma_parse_reads_back,
    lemma_parse_reads_only_spellings, lemma_well_placed_no_comma_before_closing, nesting,
    numbers_valid, tree_tokens,
};
use crate::token::SpecToken;
use crate::messages::{lex_error_text, parse_error_text};
use crate::value::{JsonTree, JsonValue};

verus! {

/// What loading JSON text `s` gives: the document, or the stage that failed and why.
pub open spec fn spec_load_json(s: Seq<char>) -> Result<JsonTree, SpecJsonError> {
    match spec_tokenize(s) {
        Ok(tokens) => match spec_parse_tokens(tokens) {
            Ok(v) => Ok(v),
            Err(e) => Err(SpecJsonError::Parse(e)),
        },
        Err(e) => Err(SpecJsonError::Tokenize(e)),
    }
}

/// Loads a JSON document from its text: splits it into tokens, then reads them.
pub fn load_json(json_str: String) -> (r: Result<JsonValue, JsonError>)
    requires
        fits_positions(json_str@),
    ensures
        match spec_load_json(json_str@) {
            Ok(v) => r matches Ok(x) && x.tree() == v,
            Err(e) => r matches Err(err) && err@ == e,
        },
{
    let tokens = match tokenize(json_str) {
        Ok(tokens) => tokens,
        Err(e) => {
            return Err(JsonError::Tokenize(e));
        },
    };
    match parse_tokens(tokens) {
        Ok(v) => Ok(v),
        Err(e) => Err(JsonError::Parse(e)),
    }
}

/// A loaded document is an object or an array, nested at most `MAX_DEPTH` deep, and the
/// text of each of its numbers is one that Rust's `f64` parser accepts.
pub proof fn lemma_loaded_document(s: Seq<char>)
    ensures
        spec_load_json(s) matches Ok(v) ==> {
            &&& v is Object || v is Array
            &&& nesting(v) <= MAX_DEPTH
            &&& numbers_valid(v)
        },
{
    lemma_tokenize_shape(s, letters_of(s));
    if let Ok(tokens) = spec_tokenize(s) {
        lemma_parse_gives_bounded_container(tokens);
        lemma_parse_keeps_numbers(tokens);
    }
}

/// Loading is reading a spelling: text loads as a document exactly when its tokens spell that
/// document, and the document is an object or an array nested at most `MAX_DEPTH` deep.
pub proof fn lemma_load_reads_spelling(s: Seq<char>, v: JsonTree)
    ensures
        spec_load_json(s) == Ok::<JsonTree, SpecJsonError>(v) <==> {
            &&& spec_tokenize(s) == Ok::<Seq<SpecToken>, SpecLexError>(tree_tokens(v))
            &&& v is Object || v is Array
            &&& nesting(v) <= MAX_DEPTH
        },
{
    lemma_tokenize_shape(s, letters_of(s));
    if let Ok(tokens) = spec_tokenize(s) {
        lemma_parse_gives_bounded_container(tokens);
        lemma_well_placed_no_comma_before_closing(tokens);
        lemma_parse_reads_only_spellings(tokens);
        if tokens == tree_tokens(v) && (v is Object || v is Array) && nesting(v) <= MAX_DEPTH {
            lemma_parse_reads_back(v);
        }
    }
}

/// Whether a test file of this name should load: its name starts with `pass`.
pub open spec fn expects_pass(file_name: Seq<char>) -> bool {
    file_name.len() >= 4 && file_name.take(4) == seq!['p', 'a', 's', 's']
}

/// The outcome of checking a test file named `name` whose content loads as `loaded`: whether
/// it passed, that is, loaded exactly if its name says it should, and the line that reports
/// it, with the error where there is one.
pub open spec fn test_outcome(name: Seq<char>, loaded: Result<JsonTree, SpecJsonError>) -> (
    bool,
    Seq<char>,
) {
    let pass = expects_pass(name);
    match loaded {
        Ok(_) => if pass {
            (true, "\u{2713} "@ + name + ": PASS (expected pass)"@)
        } else {
            (false, "\u{2717} "@ + name + ": FAIL (expected fail, but passed)"@)
        },
        Err(SpecJsonError::Parse(e)) => if pass {
            (false, "\u{2717} "@ + name + ": FAIL (expected pass, error: "@ + parse_error_text(e)
                + ")"@)
        } else {
            (true, "\u{2713} "@ + name + ": PASS (expected fail, got: "@ + parse_error_text(e)
                + ")"@)
        },
        Err(SpecJsonError::Tokenize(e)) => if pass {
            (false, "\u{2717} "@ + name + ": FAIL (tokenize error: "@ + lex_error_text(e) + ")"@)
        } else {
            (true, "\u{2713} "@ + name + ": PASS (expected fail, got: "@ + lex_error_text(e)
                + ")"@)
        },
    }
}

/// The line `mark name middle detail)`, or `mark name middle` where there is no detail.
fn report(mark: &str, name: &str, middle: &str, detail: Option<String>) -> (r: String)
    ensures
        r@ == match detail {
            Some(d) => mark@ + name@ + middle@ + d@ + ")"@,
            None => mark@ + name@ + middle@,
        },
{
    let mut r = String::from_str(mark);
    r.append(name);
    r.append(middle);
    match detail {
        Some(d) => {
            r.append(d.as_str());
            r.append(")");
        },
        None => {},
    }
    r
}

/// A name expects its file to load exactly when its first four characters are `p`, `a`,
/// `s`, `s`, whatever follows them.
pub proof fn lemma_pass_names(name: Seq<char>)
    ensures
        expects_pass(name) <==> (name.len() >= 4 && name[0] == 'p' && name[1] == 'a' && name[2]
            == 's' && name[3] == 's'),
{
    let w = seq!['p', 'a', 's', 's'];
    if name.len() >= 4 {
        lemma_same_letters(name.take(4), w);
        if name[0] == 'p' && name[1] == 'a' && name[2] == 's' && name[3] == 's' {
            assert(name.take(4) =~= w);
        }
    }
}

/// Checks one test file, given its name and its content: the file passes when it loads
/// exactly if its name says it should. Gives whether it passed, and the line that reports it.
pub fn test_file(file_name: &str, content: String) -> (r: (bool, String))
    requires
        fits_positions(content@),
    ensures
        (r.0, r.1@) == test_outcome(file_name@, spec_load_json(content@)),
        r.0 == (expects_pass(file_name@) == (spec_load_json(content@) is Ok)),
        r.0 == ((file_name@.len() >= 4 && file_name@[0] == 'p' && file_name@[1] == 'a'
            && file_name@[2] == 's' && file_name@[3] == 's') == (spec_load_json(content@) is Ok)),
{
    proof {
        lemma_pass_names(file_name@);
    }
    let should_pass = starts_with_pass(file_name);
    match load_json(content) {
        Ok(_) => if should_pass {
            (true, report("\u{2713} ", file_name, ": PASS (expected pass)", None))
        } else {
            (false, report("\u{2717} ", file_name, ": FAIL (expected fail, but passed)", None))
        },
        Err(JsonError::Parse(e)) => if should_pass {
            let detail = Some(e.to_string());
            (false, report("\u{2717} ", file_name, ": FAIL (expected pass, error: ", detail))
        } else {
            let detail = Some(e.to_string());
            (true, report("\u{2713} ", file_name, ": PASS (expected fail, got: ", detail))
        },
        Err(JsonError::Tokenize(e)) => if should_pass {
            let detail = Some(e.to_string());
            (false, report("\u{2717} ", file_name, ": FAIL (tokenize error: ", detail))
        } else {
            let detail = Some(e.to_string());
            (true, report("\u{2713} ", file_name, ": PASS (expected fail, got: ", detail))
        },
    }
}

/// Whether `s` starts with `pass`.
fn starts_with_pass(s: &str) -> (r: bool)
    ensures
        r == expects_pass(s@),
{
    let n = s.unicode_len();
    if n < 4 {
        return false;
    }
    let r = s.get_char(0) == 'p' && s.get_char(1) == 'a' && s.get_char(2) == 's' && s.get_char(3)
        == 's';
    proof {
        let w = seq!['p', 'a', 's', 's'];
        if r {
            assert(s@.take(4) =~= w);
        }
        lemma_same_letters(s@.take(4), w);
    }
    r
}

/// The decimal digit character for `d`.
pub open spec fn digit_char(d: int) -> char {
    (('0' as int) + d) as char
}

/// The decimal numeral of `n`, without leading zeros.
pub open spec fn decimal(n: nat) -> Seq<char>
    decreases n,
{
    if n < 10 {
        seq![digit_char(n as int)]
    } else {
        decimal(n / 10).push(digit_char((n % 10) as int))
    }
}

/// The decimal numeral of `a + b`.
pub fn sum_as_string(a: usize, b: usize) -> (r: String)
    requires
        a + b <= usize::MAX,
    ensures
        r@ == decimal((a + b) as nat),
{
    let mut r = String::new();
    push_decimal(&mut r, a + b);
    assert(r@ =~= decimal((a + b) as nat));
    r
}

/// The decimal numeral of `n`, with a minus sign in front where `n` is negative.
pub open spec fn signed_decimal(n: int) -> Seq<char> {
    if n < 0 {
        seq!['-'] + decimal((-n) as nat)
    } else {
        decimal(n as nat)
    }
}

/// Appends the decimal numeral of `n` to `out`, with a minus sign in front where `n` is
/// negative.
pub fn push_signed_decimal(out: &mut String, n: i32)
    ensures
        final(out)@ == old(out)@ + signed_decimal(n as int),
{
    if n < 0 {
        out.push('-');
        let magnitude: i64 = -(n as i64);
        push_decimal(out, magnitude as usize);
        assert(final(out)@ =~= old(out)@ + signed_decimal(n as int));
    } else {
        push_decimal(out, n as usize);
    }
}

/// Appends the decimal numeral of `n` to `out`.
pub fn push_decimal(out: &mut String, n: usize)
    ensures
        final(out)@ == old(out)@ + decimal(n as nat),
{
    // The digits, the least significant first.
    let mut digits: Vec<char> = Vec::new();
    let mut m = n;
    loop
        invariant
            decimal(n as nat) == decimal(m as nat) + digits@.reverse(),
        ensures
            m < 10,
            decimal(n as nat) == decimal(m as nat) + digits@.reverse(),
        decreases m,
    {
        if m < 10 {
            break;
        }
        let d = m % 10;
        let c = digit(d);
        proof {
            assert(decimal(m as nat) == decimal((m / 10) as nat).push(c));
            assert(digits@.push(c).reverse() =~= seq![c] + digits@.reverse());
            assert(decimal((m / 10) as nat).push(c) =~= decimal((m / 10) as nat) + seq![c]);
        }
        digits.push(c);
        m = m / 10;
    }
    let ghost start = out@;
    out.push(digit(m));
    assert(decimal(m as nat) =~= seq![digit_char(m as int)]);
    let mut k = digits.len();
    while k > 0
        invariant
            k <= digits.len(),
            decimal(n as nat) == decimal(m as nat) + digits@.reverse(),
            m < 10,
            out@ == start + decimal(m as nat) + digits@.subrange(
                k as int,
                digits.len() as int,
            ).reverse(),
        decreases k,
    {
        k = k - 1;
        proof {
            assert(digits@.subrange(k as int, digits.len() as int).reverse() =~= digits@.subrange(
                k + 1,
                digits.len() as int,
            ).reverse().push(digits@[k as int]));
        }
        out.push(digits[k]);
    }
    assert(digits@.subrange(0, digits.len() as int) =~= digits@);
    assert(out@ =~= start + decimal(n as nat));
}

/// The decimal digit character for `d`.
fn digit(d: usize) -> (c: char)
    requires
        d < 10,
    ensures
        c == digit_char(d as int),
{
    if d == 0 {
        '0'
    } else if d == 1 {
        '1'
    } else if d == 2 {
        '2'
    } else if d == 3 {
        '3'
    } else if d == 4 {
        '4'
    } else if d == 5 {
        '5'
    } else if d == 6 {
        '6'
    } else if d == 7 {
        '7'
    } else if d == 8 {
        '8'
    } else {
        '9'
    }
}

/// The index of the first character of `s`, from `s[i]` on, that is not white space, or the
/// end of `s`.
pub open spec fn first_kept(s: Seq<char>, i: int) -> int
    decreases s.len() - i,
{
    if 0 <= i < s.len() && is_white_space(s[i]) {
        first_kept(s, i + 1)
    } else {
        i
    }
}

/// The end of `s.subrange(a, j)` once the white space at its end is cut off.
pub open spec fn kept_end(s: Seq<char>, a: int, j: int) -> int
    decreases j - a,
{
    if a < j <= s.len() && is_white_space(s[j - 1]) {
        kept_end(s, a, j - 1)
    } else {
        j
    }
}

/// `s` without the white space at its start and at its end.
pub open spec fn trimmed(s: Seq<char>) -> Seq<char> {
    s.subrange(first_kept(s, 0), kept_end(s, first_kept(s, 0), s.len() as int))
}

/// The text of a file as it is read: `text` without the white space at its start and end.
pub fn trim_text(text: &str) -> (r: String)
    ensures
        r@ == trimmed(text@),
{
    let chars = chars_of(text);
    let ghost s = chars@;
    let mut a: usize = 0;
    while a < chars.len() && is_whitespace(chars[a])
        invariant
            s == chars@,
            a <= chars.len(),
            first_kept(s, a as int) == first_kept(s, 0),
        decreases chars.len() - a,
    {
        a = a + 1;
    }
    let mut b: usize = chars.len();
    while b > a && is_whitespace(chars[b - 1])
        invariant
            s == chars@,
            a <= b <= chars.len(),
            first_kept(s, 0) == a,
            kept_end(s, a as int, b as int) == kept_end(s, a as int, s.len() as int),
        decreases b,
    {
        b = b - 1;
    }
    let mut r = String::new();
    let mut m = a;
    while m < b
        invariant
            s == chars@,
            a <= m <= b,
            b <= chars.len(),
            r@ == s.subrange(a as int, m as int),
        decreases b - m,
    {
        r.push(chars[m]);
        m = m + 1;
        assert(r@ =~= s.subrange(a as int, m as int));
    }
    r
}

} // verus!

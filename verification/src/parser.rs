use vstd::prelude::*;
use crate::error::{ParseError, SpecParseError};
use crate::token::{SpecToken, Token, tokens_view};
use crate::value::{
    JsonTree, JsonValue, item_trees, lemma_item_trees_push, lemma_member_trees_push, member_trees,
};

verus! {

/// The deepest nesting of objects and arrays that the parser accepts.
pub const MAX_DEPTH: usize = 19;

// ---------------------------------------------------------------------------------------
// The model: how a sequence of tokens is read as a JSON value.
// ---------------------------------------------------------------------------------------

/// Whether `t` opens an object or an array.
pub open spec fn opens_container(t: SpecToken) -> bool {
    t is BraceCurlyOpen || t is BracketSquareOpen
}

/// Reads a value that starts at `t[i]`, inside `depth` containers. Gives its model and the
/// index after it.
pub open spec fn spec_parse_value(t: Seq<SpecToken>, i: int, depth: int) -> Result<
    (JsonTree, int),
    SpecParseError,
>
    decreases t.len() - i, 1int,
{
    if depth > MAX_DEPTH {
        Err(SpecParseError::TooDeep { depth })
    } else if i < 0 || i >= t.len() {
        Err(SpecParseError::UnexpectedEnd)
    } else {
        match t[i] {
            SpecToken::BraceCurlyOpen => spec_parse_object(t, i + 1, depth + 1),
            SpecToken::BracketSquareOpen => spec_parse_array(t, i + 1, depth + 1),
            SpecToken::Str(s) => Ok((JsonTree::String(s), i + 1)),
            SpecToken::Num(s) => Ok((JsonTree::Number(s), i + 1)),
            SpecToken::True => Ok((JsonTree::Boolean(true), i + 1)),
            SpecToken::False => Ok((JsonTree::Boolean(false), i + 1)),
            SpecToken::Null => Ok((JsonTree::Null, i + 1)),
            _ => Err(SpecParseError::UnknownToken),
        }
    }
}

/// Reads the members of an object whose `{` has been read, from `t[i]` on; the object is the
/// container at nesting level `depth`.
pub open spec fn spec_parse_object(t: Seq<SpecToken>, i: int, depth: int) -> Result<
    (JsonTree, int),
    SpecParseError,
>
    decreases t.len() - i, 3int,
{
    if depth > MAX_DEPTH {
        Err(SpecParseError::TooDeep { depth })
    } else {
        spec_object_members(t, i, depth, Seq::empty())
    }
}

/// Reads the rest of an object from `t[i]` on, after the members `members`.
pub open spec fn spec_object_members(
    t: Seq<SpecToken>,
    i: int,
    depth: int,
    members: Seq<(Seq<char>, JsonTree)>,
) -> Result<(JsonTree, int), SpecParseError>
    decreases t.len() - i, 2int,
{
    if 0 <= i < t.len() && t[i] is BraceCurlyClose {
        Ok((JsonTree::Object(members), i + 1))
    } else if 0 <= i < t.len() && t[i] is Str {
        let key = t[i]->Str_0;
        if i + 1 < t.len() && t[i + 1] is Colon {
            match spec_parse_value(t, i + 2, depth) {
                Ok((value, j)) => {
                    let members = members.push((key, value));
                    if i < j < t.len() && t[j] is Comma {
                        spec_object_members(t, j + 1, depth, members)
                    } else if 0 <= j < t.len() && t[j] is BraceCurlyClose {
                        Ok((JsonTree::Object(members), j + 1))
                    } else {
                        Err(SpecParseError::ExpectedCommaOrBrace)
                    }
                },
                Err(e) => Err(e),
            }
        } else {
            Err(SpecParseError::ExpectedColon)
        }
    } else {
        Err(SpecParseError::ExpectedKeyOrClose)
    }
}

/// Reads the items of an array whose `[` has been read, from `t[i]` on; the array is the
/// container at nesting level `depth`.
pub open spec fn spec_parse_array(t: Seq<SpecToken>, i: int, depth: int) -> Result<
    (JsonTree, int),
    SpecParseError,
>
    decreases t.len() - i, 3int,
{
    if depth > MAX_DEPTH {
        Err(SpecParseError::TooDeep { depth })
    } else {
        spec_array_items(t, i, depth, Seq::empty())
    }
}

/// Reads the rest of an array from `t[i]` on, after the items `items`.
pub open spec fn spec_array_items(
    t: Seq<SpecToken>,
    i: int,
    depth: int,
    items: Seq<JsonTree>,
) -> Result<(JsonTree, int), SpecParseError>
    decreases t.len() - i, 2int,
{
    if i < 0 || i >= t.len() {
        Err(SpecParseError::UnexpectedEndInArray)
    } else if t[i] is BracketSquareClose {
        Ok((JsonTree::Array(items), i + 1))
    } else {
        match spec_parse_value(t, i, depth) {
            Ok((value, j)) => {
                let items = items.push(value);
                if i < j < t.len() && t[j] is Comma {
                    spec_array_items(t, j + 1, depth, items)
                } else if 0 <= j < t.len() && t[j] is BracketSquareClose {
                    Ok((JsonTree::Array(items), j + 1))
                } else {
                    Err(SpecParseError::ExpectedCommaOrBracket)
                }
            },
            Err(e) => Err(e),
        }
    }
}

/// The JSON document that the tokens `t` spell: an object or an array, with nothing after.
pub open spec fn spec_parse_tokens(t: Seq<SpecToken>) -> Result<JsonTree, SpecParseError> {
    if t.len() == 0 {
        Err(SpecParseError::EmptyInput)
    } else if !(t[0] is BraceCurlyOpen || t[0] is BracketSquareOpen) {
        Err(SpecParseError::NotContainer)
    } else {
        match spec_parse_value(t, 0, 0) {
            Ok((value, j)) => if 0 <= j < t.len() {
                Err(SpecParseError::ExtraToken { token: t[j] })
            } else {
                Ok(value)
            },
            Err(e) => Err(e),
        }
    }
}

/// A value that is read ends past where it starts, and within the tokens.
pub proof fn lemma_parse_value_advances(t: Seq<SpecToken>, i: int, depth: int)
    ensures
        spec_parse_value(t, i, depth) matches Ok((_, j)) ==> 0 <= i < j <= t.len(),
    decreases t.len() - i, 1int,
{
    if depth <= MAX_DEPTH && 0 <= i < t.len() {
        match t[i] {
            SpecToken::BraceCurlyOpen => lemma_parse_object_advances(t, i + 1, depth + 1),
            SpecToken::BracketSquareOpen => lemma_parse_array_advances(t, i + 1, depth + 1),
            _ => {},
        }
    }
}

/// An object that is read ends past where its members start, and within the tokens.
pub proof fn lemma_parse_object_advances(t: Seq<SpecToken>, i: int, depth: int)
    ensures
        spec_parse_object(t, i, depth) matches Ok((_, j)) ==> i < j <= t.len(),
    decreases t.len() - i, 3int,
{
    if depth <= MAX_DEPTH {
        lemma_object_members_advance(t, i, depth, Seq::empty());
    }
}

/// The rest of an object that is read ends past where it starts, and within the tokens.
pub proof fn lemma_object_members_advance(
    t: Seq<SpecToken>,
    i: int,
    depth: int,
    members: Seq<(Seq<char>, JsonTree)>,
)
    ensures
        spec_object_members(t, i, depth, members) matches Ok((_, j)) ==> i < j <= t.len(),
    decreases t.len() - i, 2int,
{
    if 0 <= i < t.len() && t[i] is Str && i + 1 < t.len() && t[i + 1] is Colon {
        lemma_parse_value_advances(t, i + 2, depth);
        if let Ok((value, j)) = spec_parse_value(t, i + 2, depth) {
            if i < j < t.len() && t[j] is Comma {
                lemma_object_members_advance(t, j + 1, depth, members.push((t[i]->Str_0, value)));
            }
        }
    }
}

/// An array that is read ends past where its items start, and within the tokens.
pub proof fn lemma_parse_array_advances(t: Seq<SpecToken>, i: int, depth: int)
    ensures
        spec_parse_array(t, i, depth) matches Ok((_, j)) ==> i < j <= t.len(),
    decreases t.len() - i, 3int,
{
    if depth <= MAX_DEPTH {
        lemma_array_items_advance(t, i, depth, Seq::empty());
    }
}

/// The rest of an array that is read ends past where it starts, and within the tokens.
pub proof fn lemma_array_items_advance(
    t: Seq<SpecToken>,
    i: int,
    depth: int,
    items: Seq<JsonTree>,
)
    ensures
        spec_array_items(t, i, depth, items) matches Ok((_, j)) ==> i < j <= t.len(),
    decreases t.len() - i, 2int,
{
    if 0 <= i < t.len() && !(t[i] is BracketSquareClose) {
        lemma_parse_value_advances(t, i, depth);
        if let Ok((value, j)) = spec_parse_value(t, i, depth) {
            if i < j < t.len() && t[j] is Comma {
                lemma_array_items_advance(t, j + 1, depth, items.push(value));
            }
        }
    }
}

// ---------------------------------------------------------------------------------------
// The parser.
// ---------------------------------------------------------------------------------------

/// Reads the value that starts at `tokens[*index]`, inside `depth` containers; moves
/// `index` past it.
fn parse_value(tokens: &Vec<Token>, index: &mut usize, depth: usize) -> (r: Result<
    JsonValue,
    ParseError,
>)
    requires
        *old(index) <= tokens.len(),
    ensures
        match spec_parse_value(tokens_view(tokens@), *old(index) as int, depth as int) {
            Ok((v, j)) => r matches Ok(x) && x.tree() == v && *final(index) == j,
            Err(e) => r matches Err(err) && err@ == e,
        },
        r is Err && !(depth <= MAX_DEPTH && *old(index) < tokens.len() && opens_container(
            tokens@[*old(index) as int]@,
        )) ==> *final(index) == *old(index),
    decreases tokens.len() - *old(index), 1int,
{
    if depth > MAX_DEPTH {
        return Err(ParseError::TooDeep { depth });
    }
    if *index >= tokens.len() {
        return Err(ParseError::UnexpectedEnd);
    }
    assert(tokens_view(tokens@)[*index as int] == tokens@[*index as int]@);
    match &tokens[*index] {
        Token::BraceCurlyOpen => parse_object(tokens, index, depth + 1),
        Token::BracketSquareOpen => parse_array(tokens, index, depth + 1),
        Token::String(s) => {
            let s = s.clone();
            *index = *index + 1;
            Ok(JsonValue::String(s))
        },
        Token::Number(n) => {
            let n = n.clone();
            *index = *index + 1;
            Ok(JsonValue::Number(n))
        },
        Token::True => {
            *index = *index + 1;
            Ok(JsonValue::Boolean(true))
        },
        Token::False => {
            *index = *index + 1;
            Ok(JsonValue::Boolean(false))
        },
        Token::Null => {
            *index = *index + 1;
            Ok(JsonValue::Null)
        },
        _ => Err(ParseError::UnknownToken),
    }
}

/// Reads the object whose `{` is `tokens[*index]`, the container at nesting level `depth`;
/// moves `index` past its `}`.
fn parse_object(tokens: &Vec<Token>, index: &mut usize, depth: usize) -> (r: Result<
    JsonValue,
    ParseError,
>)
    requires
        *old(index) < tokens.len(),
    ensures
        match spec_parse_object(tokens_view(tokens@), *old(index) + 1, depth as int) {
            Ok((v, j)) => r matches Ok(x) && x.tree() == v && *final(index) == j,
            Err(e) => r matches Err(err) && err@ == e,
        },
    decreases tokens.len() - *old(index), 0int,
{
    let ghost t = tokens_view(tokens@);
    let ghost start = *index + 1;
    let mut object: Vec<(String, JsonValue)> = Vec::new();
    // Consume the `{`.
    *index = *index + 1;
    if depth > MAX_DEPTH {
        return Err(ParseError::TooDeep { depth });
    }
    loop
        invariant
            *index <= tokens.len(),
            depth <= MAX_DEPTH,
            t == tokens_view(tokens@),
            start == *old(index) + 1,
            *old(index) < *index,
            spec_object_members(t, *index as int, depth as int, member_trees(object@))
                == spec_parse_object(t, start, depth as int),
        decreases tokens.len() - *index,
    {
        let ghost i0 = *index as int;
        let ghost members0 = member_trees(object@);
        if *index < tokens.len() {
            assert(t[*index as int] == tokens@[*index as int]@);
        }
        if *index < tokens.len() && matches!(tokens[*index], Token::BraceCurlyClose) {
            *index = *index + 1;
            return Ok(JsonValue::Object(object));
        }
        let key = if *index < tokens.len() {
            match &tokens[*index] {
                Token::String(k) => k.clone(),
                _ => {
                    return Err(ParseError::ExpectedKeyOrClose);
                },
            }
        } else {
            return Err(ParseError::ExpectedKeyOrClose);
        };
        *index = *index + 1;
        if *index < tokens.len() {
            assert(t[*index as int] == tokens@[*index as int]@);
        }
        if !(*index < tokens.len() && matches!(tokens[*index], Token::Colon)) {
            return Err(ParseError::ExpectedColon);
        }
        *index = *index + 1;
        let value = match parse_value(tokens, index, depth) {
            Ok(value) => value,
            Err(e) => {
                return Err(e);
            },
        };
        proof {
            lemma_parse_value_advances(t, i0 + 2, depth as int);
            lemma_member_trees_push(object@, (key, value));
        }
        object.push((key, value));
        if *index < tokens.len() {
            assert(t[*index as int] == tokens@[*index as int]@);
        }
        if *index < tokens.len() && matches!(tokens[*index], Token::Comma) {
            *index = *index + 1;
        } else if *index < tokens.len() && matches!(tokens[*index], Token::BraceCurlyClose) {
        } else {
            return Err(ParseError::ExpectedCommaOrBrace);
        }
    }
}

/// Reads the array whose `[` is `tokens[*index]`, the container at nesting level `depth`;
/// moves `index` past its `]`.
fn parse_array(tokens: &Vec<Token>, index: &mut usize, depth: usize) -> (r: Result<
    JsonValue,
    ParseError,
>)
    requires
        *old(index) < tokens.len(),
    ensures
        match spec_parse_array(tokens_view(tokens@), *old(index) + 1, depth as int) {
            Ok((v, j)) => r matches Ok(x) && x.tree() == v && *final(index) == j,
            Err(e) => r matches Err(err) && err@ == e,
        },
    decreases tokens.len() - *old(index), 0int,
{
    let ghost t = tokens_view(tokens@);
    let ghost start = *index + 1;
    let mut array: Vec<JsonValue> = Vec::new();
    // Consume the `[`.
    *index = *index + 1;
    if depth > MAX_DEPTH {
        return Err(ParseError::TooDeep { depth });
    }
    loop
        invariant
            *index <= tokens.len(),
            depth <= MAX_DEPTH,
            t == tokens_view(tokens@),
            start == *old(index) + 1,
            *old(index) < *index,
            spec_array_items(t, *index as int, depth as int, item_trees(array@))
                == spec_parse_array(t, start, depth as int),
        decreases tokens.len() - *index,
    {
        let ghost i0 = *index as int;
        if *index >= tokens.len() {
            return Err(ParseError::UnexpectedEndInArray);
        }
        assert(t[*index as int] == tokens@[*index as int]@);
        if matches!(tokens[*index], Token::BracketSquareClose) {
            *index = *index + 1;
            return Ok(JsonValue::Array(array));
        }
        let value = match parse_value(tokens, index, depth) {
            Ok(value) => value,
            Err(e) => {
                return Err(e);
            },
        };
        proof {
            lemma_parse_value_advances(t, i0, depth as int);
            lemma_item_trees_push(array@, value);
        }
        array.push(value);
        if *index < tokens.len() {
            assert(t[*index as int] == tokens@[*index as int]@);
        }
        if *index < tokens.len() && matches!(tokens[*index], Token::Comma) {
            *index = *index + 1;
        } else if *index < tokens.len() && matches!(tokens[*index], Token::BracketSquareClose) {
        } else {
            return Err(ParseError::ExpectedCommaOrBracket);
        }
    }
}

/// Reads a JSON document from its tokens: an object or an array, nested at most
/// [`MAX_DEPTH`] deep, with no token after it.
pub fn parse_tokens(tokens: Vec<Token>) -> (r: Result<JsonValue, ParseError>)
    ensures
        match spec_parse_tokens(tokens_view(tokens@)) {
            Ok(v) => r matches Ok(x) && x.tree() == v,
            Err(e) => r matches Err(err) && err@ == e,
        },
{
    let ghost t = tokens_view(tokens@);
    // Check that the root value is an object or an array.
    if tokens.len() == 0 {
        return Err(ParseError::EmptyInput);
    }
    assert(t[0] == tokens@[0]@);
    if !matches!(tokens[0], Token::BraceCurlyOpen | Token::BracketSquareOpen) {
        return Err(ParseError::NotContainer);
    }
    let mut index: usize = 0;
    let value = match parse_value(&tokens, &mut index, 0) {
        Ok(value) => value,
        Err(e) => {
            return Err(e);
        },
    };
    // Check that there is no token after the root value.
    if index < tokens.len() {
        assert(t[index as int] == tokens@[index as int]@);
        return Err(ParseError::ExtraToken { token: tokens[index].duplicate() });
    }
    Ok(value)
}

} // verus!

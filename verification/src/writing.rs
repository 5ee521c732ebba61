use vstd::prelude::*;
use crate::error::{SpecLexError, SpecParseError};
use crate::lexer::{
    accepts_value, ends_with_comma, is_closing_token, is_scalar_token, spec_tokenize_marked,
    well_placed,
};
use crate::parser::{MAX_DEPTH, spec_parse_tokens};
use crate::spacing::{lemma_tokens_read_back, numbers_read_whole, tokens_marks, tokens_text};
use crate::spelling::{items_tokens, lemma_parse_reads_back, members_tokens, nesting, tree_tokens};
use crate::token::SpecToken;
use crate::value::JsonTree;

verus! {

// ---------------------------------------------------------------------------------------
// Documents written out as text.
// ---------------------------------------------------------------------------------------

/// Whether the token `u` may stand right after the token `t`: a scalar after `,`, `:`, `{`
/// or `[`, and no `}`, `]`, `,` or `:` after a comma.
spec fn may_follow(t: SpecToken, u: SpecToken) -> bool {
    &&& is_scalar_token(u) ==> (t is Comma || t is Colon || t is BraceCurlyOpen
        || t is BracketSquareOpen)
    &&& is_closing_token(u) ==> !(t is Comma)
}

/// Whether each token of `t` may stand right after the one before it.
spec fn adjacent_ok(t: Seq<SpecToken>) -> bool {
    forall|k: int| 0 < k < t.len() ==> may_follow(t[k - 1], #[trigger] t[k])
}

/// Whether a value may start with the token `t`.
spec fn opens_value(t: SpecToken) -> bool {
    is_scalar_token(t) || t is BraceCurlyOpen || t is BracketSquareOpen
}

/// Whether a value may end with the token `t`.
spec fn closes_value(t: SpecToken) -> bool {
    is_scalar_token(t) || t is BraceCurlyClose || t is BracketSquareClose
}

/// Tokens of which each may stand after the one before stand where the tokenizer lets them.
proof fn lemma_adjacent_well_placed(t: Seq<SpecToken>)
    requires
        adjacent_ok(t),
    ensures
        well_placed(t),
{
    assert forall|k: int| 0 <= k < t.len() implies {
        &&& is_scalar_token(#[trigger] t[k]) ==> accepts_value(t.take(k))
        &&& is_closing_token(t[k]) ==> !ends_with_comma(t.take(k))
    } by {
        if k > 0 {
            assert(t.take(k).last() == t[k - 1]);
        }
    }
}

/// Two runs of tokens that each hold together hold together side by side where the first
/// token of the second may follow the last of the first.
proof fn lemma_adjacent_concat(a: Seq<SpecToken>, b: Seq<SpecToken>)
    requires
        adjacent_ok(a),
        adjacent_ok(b),
        a.len() > 0 && b.len() > 0 ==> may_follow(a.last(), b[0]),
    ensures
        adjacent_ok(a + b),
{
    let s = a + b;
    assert forall|k: int| 0 < k < s.len() implies may_follow(s[k - 1], #[trigger] s[k]) by {
        if k < a.len() {
            assert(s[k - 1] == a[k - 1] && s[k] == a[k]);
        } else if k == a.len() {
            assert(s[k - 1] == a.last() && s[k] == b[0]);
        } else {
            assert(s[k - 1] == b[k - 1 - a.len()] && s[k] == b[k - a.len()]);
        }
    }
}

/// The tokens that spell a value hold together, start a value and end one.
proof fn lemma_tree_adjacent(v: JsonTree)
    ensures
        tree_tokens(v).len() > 0,
        opens_value(tree_tokens(v)[0]),
        closes_value(tree_tokens(v).last()),
        adjacent_ok(tree_tokens(v)),
    decreases v, 1int,
{
    match v {
        JsonTree::Array(items) => {
            let inner = items_tokens(items);
            lemma_items_adjacent(items);
            lemma_adjacent_concat(seq![SpecToken::BracketSquareOpen], inner);
            lemma_adjacent_concat(
                seq![SpecToken::BracketSquareOpen] + inner,
                seq![SpecToken::BracketSquareClose],
            );
        },
        JsonTree::Object(members) => {
            let inner = members_tokens(members);
            lemma_members_adjacent(members);
            lemma_adjacent_concat(seq![SpecToken::BraceCurlyOpen], inner);
            lemma_adjacent_concat(
                seq![SpecToken::BraceCurlyOpen] + inner,
                seq![SpecToken::BraceCurlyClose],
            );
        },
        _ => {},
    }
}

/// The tokens that spell the items of an array hold together, and where there are items,
/// start a value and end one.
proof fn lemma_items_adjacent(items: Seq<JsonTree>)
    ensures
        adjacent_ok(items_tokens(items)),
        items.len() > 0 ==> items_tokens(items).len() > 0 && opens_value(items_tokens(items)[0])
            && closes_value(items_tokens(items).last()),
    decreases items, 0int,
{
    if items.len() > 0 {
        let first = tree_tokens(items[0]);
        lemma_tree_adjacent(items[0]);
        if items.len() > 1 {
            let rest = items_tokens(items.skip(1));
            lemma_items_adjacent(items.skip(1));
            lemma_adjacent_concat(first, seq![SpecToken::Comma]);
            lemma_adjacent_concat(first + seq![SpecToken::Comma], rest);
        }
    }
}

/// The tokens that spell the members of an object hold together, and where there are
/// members, start with a key and end a value.
proof fn lemma_members_adjacent(members: Seq<(Seq<char>, JsonTree)>)
    ensures
        adjacent_ok(members_tokens(members)),
        members.len() > 0 ==> members_tokens(members).len() > 0 && members_tokens(
            members,
        )[0] is Str && closes_value(members_tokens(members).last()),
    decreases members, 0int,
{
    if members.len() > 0 {
        let key = seq![SpecToken::Str(members[0].0), SpecToken::Colon];
        let value = tree_tokens(members[0].1);
        lemma_tree_adjacent(members[0].1);
        lemma_adjacent_concat(key, value);
        let first = key + value;
        if members.len() > 1 {
            let rest = members_tokens(members.skip(1));
            lemma_members_adjacent(members.skip(1));
            lemma_adjacent_concat(first, seq![SpecToken::Comma]);
            lemma_adjacent_concat(first + seq![SpecToken::Comma], rest);
        }
    }
}

/// A document written out as text is read back: the tokens that spell an object or an
/// array, nested at most `MAX_DEPTH` deep, written out each followed by a space, with the
/// letters of its keywords marked, are read as those tokens, and the parser reads them as
/// the document. The text of each number is one that the tokenizer reads back whole, and
/// the text is short enough for its columns to be counted in `i32`.
pub proof fn lemma_document_read_back(v: JsonTree)
    requires
        v is Object || v is Array,
        nesting(v) <= MAX_DEPTH,
        numbers_read_whole(tree_tokens(v)),
        tokens_text(tree_tokens(v)).len() <= i32::MAX - 1,
    ensures
        spec_tokenize_marked(tokens_text(tree_tokens(v)), tokens_marks(tree_tokens(v))) == Ok::<
            Seq<SpecToken>,
            SpecLexError,
        >(tree_tokens(v)),
        spec_parse_tokens(tree_tokens(v)) == Ok::<JsonTree, SpecParseError>(v),
{
    lemma_tree_adjacent(v);
    lemma_adjacent_well_placed(tree_tokens(v));
    lemma_tokens_read_back(tree_tokens(v));
    lemma_parse_reads_back(v);
}

} // verus!

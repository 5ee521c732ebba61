use vstd::prelude::*;
use crate::error::SpecParseError;
use crate::parser::{
    MAX_DEPTH, lemma_array_items_advance, lemma_object_members_advance, lemma_parse_array_advances,
    lemma_parse_object_advances, lemma_parse_value_advances, spec_array_items, spec_object_members,
    spec_parse_array, spec_parse_object, spec_parse_tokens, spec_parse_value,
};
use crate::float_text::is_float_literal;
use crate::lexer::{is_closing_token, numbers_parse, well_placed};
use crate::token::SpecToken;
use crate::value::JsonTree;

verus! {

/// The tokens that spell `v`: members as `key : value`, items and members separated by
/// commas, with no comma before a closing bracket.
pub open spec fn tree_tokens(v: JsonTree) -> Seq<SpecToken>
    decreases v,
{
    match v {
        JsonTree::String(s) => seq![SpecToken::Str(s)],
        JsonTree::Number(s) => seq![SpecToken::Num(s)],
        JsonTree::Boolean(b) => if b {
            seq![SpecToken::True]
        } else {
            seq![SpecToken::False]
        },
        JsonTree::Null => seq![SpecToken::Null],
        JsonTree::Array(items) => seq![SpecToken::BracketSquareOpen] + items_tokens(items) + seq![
            SpecToken::BracketSquareClose,
        ],
        JsonTree::Object(members) => seq![SpecToken::BraceCurlyOpen] + members_tokens(members)
            + seq![SpecToken::BraceCurlyClose],
    }
}

/// The tokens that spell the items of an array, separated by commas.
pub open spec fn items_tokens(items: Seq<JsonTree>) -> Seq<SpecToken>
    decreases items,
{
    if items.len() == 0 {
        Seq::empty()
    } else if items.len() == 1 {
        tree_tokens(items[0])
    } else {
        tree_tokens(items[0]) + seq![SpecToken::Comma] + items_tokens(items.skip(1))
    }
}

/// The tokens that spell the members of an object, separated by commas.
pub open spec fn members_tokens(members: Seq<(Seq<char>, JsonTree)>) -> Seq<SpecToken>
    decreases members,
{
    if members.len() == 0 {
        Seq::empty()
    } else {
        let first = seq![SpecToken::Str(members[0].0), SpecToken::Colon] + tree_tokens(
            members[0].1,
        );
        if members.len() == 1 {
            first
        } else {
            first + seq![SpecToken::Comma] + members_tokens(members.skip(1))
        }
    }
}

/// How deep containers nest in `v`: 0 for a scalar, one more than its deepest part for an
/// object or an array.
pub open spec fn nesting(v: JsonTree) -> nat
    decreases v,
{
    match v {
        JsonTree::Array(items) => 1 + items_nesting(items),
        JsonTree::Object(members) => 1 + members_nesting(members),
        _ => 0,
    }
}

/// The deepest nesting among `items`.
pub open spec fn items_nesting(items: Seq<JsonTree>) -> nat
    decreases items,
{
    if items.len() == 0 {
        0
    } else {
        let first = nesting(items[0]);
        let rest = items_nesting(items.skip(1));
        if first >= rest {
            first
        } else {
            rest
        }
    }
}

/// The deepest nesting among the values of `members`.
pub open spec fn members_nesting(members: Seq<(Seq<char>, JsonTree)>) -> nat
    decreases members,
{
    if members.len() == 0 {
        0
    } else {
        let first = nesting(members[0].1);
        let rest = members_nesting(members.skip(1));
        if first >= rest {
            first
        } else {
            rest
        }
    }
}

/// What reading a value at `i` inside `depth` containers gives when the tokens from `i` on
/// start with the spelling of `v`.
pub open spec fn reading_of(v: JsonTree, i: int, depth: int) -> Result<
    (JsonTree, int),
    SpecParseError,
> {
    if depth + nesting(v) <= MAX_DEPTH {
        Ok((v, i + tree_tokens(v).len()))
    } else {
        Err(SpecParseError::TooDeep { depth: MAX_DEPTH + 1 })
    }
}

/// A part of `t` that spells `a` followed by `b` is the spelling of `a`, then that of `b`.
proof fn lemma_split(t: Seq<SpecToken>, p: int, a: Seq<SpecToken>, b: Seq<SpecToken>)
    requires
        0 <= p,
        p + a.len() + b.len() <= t.len(),
        t.subrange(p, p + a.len() + b.len()) == a + b,
    ensures
        t.subrange(p, p + a.len()) == a,
        t.subrange(p + a.len(), p + a.len() + b.len()) == b,
{
    assert forall|k: int| 0 <= k < a.len() implies t.subrange(p, p + a.len())[k] == a[k] by {
        assert(t.subrange(p, p + a.len() + b.len())[k] == (a + b)[k]);
    }
    assert forall|k: int| 0 <= k < b.len() implies t.subrange(
        p + a.len(),
        p + a.len() + b.len(),
    )[k] == b[k] by {
        assert(t.subrange(p, p + a.len() + b.len())[a.len() + k] == (a + b)[a.len() + k]);
        assert(t.subrange(p, p + a.len() + b.len())[a.len() + k] == t[p + a.len() + k]);
        assert(t.subrange(p + a.len(), p + a.len() + b.len())[k] == t[p + a.len() + k]);
    }
    assert(t.subrange(p, p + a.len()) =~= a);
    assert(t.subrange(p + a.len(), p + a.len() + b.len()) =~= b);
}

/// A spelling is never empty, and starts with a token that starts a value.
proof fn lemma_spelling_starts_value(v: JsonTree)
    ensures
        tree_tokens(v).len() > 0,
        !(tree_tokens(v)[0] is BraceCurlyClose),
        !(tree_tokens(v)[0] is BracketSquareClose),
        !(tree_tokens(v)[0] is Comma),
        !(tree_tokens(v)[0] is Colon),
        tree_tokens(v)[0] is BraceCurlyOpen <==> v is Object,
        tree_tokens(v)[0] is BracketSquareOpen <==> v is Array,
{
    match v {
        JsonTree::Array(items) => {
            let tt = tree_tokens(v);
            assert(tt == seq![SpecToken::BracketSquareOpen] + items_tokens(items) + seq![
                SpecToken::BracketSquareClose,
            ]);
            assert(tt[0] == SpecToken::BracketSquareOpen);
        },
        JsonTree::Object(members) => {
            let tt = tree_tokens(v);
            assert(tt == seq![SpecToken::BraceCurlyOpen] + members_tokens(members) + seq![
                SpecToken::BraceCurlyClose,
            ]);
            assert(tt[0] == SpecToken::BraceCurlyOpen);
        },
        _ => {},
    }
}

/// Reading the spelling of `v` at depth `depth` gives `v` back, unless it nests too deep.
proof fn lemma_read_tree(t: Seq<SpecToken>, i: int, depth: int, v: JsonTree)
    requires
        0 <= i,
        i + tree_tokens(v).len() <= t.len(),
        t.subrange(i, i + tree_tokens(v).len()) == tree_tokens(v),
        0 <= depth <= MAX_DEPTH,
    ensures
        spec_parse_value(t, i, depth) == reading_of(v, i, depth),
    decreases v, 0int,
{
    let tt = tree_tokens(v);
    lemma_spelling_starts_value(v);
    assert(t[i] == t.subrange(i, i + tt.len())[0]);
    match v {
        JsonTree::Array(items) => {
            let inner = items_tokens(items);
            let close = seq![SpecToken::BracketSquareClose];
            assert(tt == seq![SpecToken::BracketSquareOpen] + inner + close);
            lemma_split(t, i, seq![SpecToken::BracketSquareOpen] + inner, close);
            lemma_split(t, i, seq![SpecToken::BracketSquareOpen], inner);
            let end = i + 1 + inner.len();
            assert(t[end] == t.subrange(end, end + 1)[0]);
            if depth + 1 <= MAX_DEPTH {
                if items.len() == 0 {
                    assert(spec_array_items(t, i + 1, depth + 1, Seq::empty()) == Ok::<
                        _,
                        SpecParseError,
                    >((JsonTree::Array(Seq::empty()), i + 2)));
                    assert(items =~= Seq::<JsonTree>::empty());
                } else {
                    lemma_read_items(t, i + 1, depth + 1, items, Seq::empty());
                    assert(Seq::<JsonTree>::empty() + items =~= items);
                }
            }
        },
        JsonTree::Object(members) => {
            let inner = members_tokens(members);
            let close = seq![SpecToken::BraceCurlyClose];
            assert(tt == seq![SpecToken::BraceCurlyOpen] + inner + close);
            lemma_split(t, i, seq![SpecToken::BraceCurlyOpen] + inner, close);
            lemma_split(t, i, seq![SpecToken::BraceCurlyOpen], inner);
            let end = i + 1 + inner.len();
            assert(t[end] == t.subrange(end, end + 1)[0]);
            if depth + 1 <= MAX_DEPTH {
                if members.len() == 0 {
                    assert(spec_object_members(t, i + 1, depth + 1, Seq::empty()) == Ok::<
                        _,
                        SpecParseError,
                    >((JsonTree::Object(Seq::empty()), i + 2)));
                    assert(members =~= Seq::<(Seq<char>, JsonTree)>::empty());
                } else {
                    lemma_read_members(t, i + 1, depth + 1, members, Seq::empty());
                    assert(Seq::<(Seq<char>, JsonTree)>::empty() + members =~= members);
                }
            }
        },
        _ => {},
    }
}

/// Reading the spelling of the items `items`, followed by `]`, after the items `done`.
proof fn lemma_read_items(
    t: Seq<SpecToken>,
    p: int,
    depth: int,
    items: Seq<JsonTree>,
    done: Seq<JsonTree>,
)
    requires
        0 <= p,
        items.len() > 0,
        p + items_tokens(items).len() < t.len(),
        t.subrange(p, p + items_tokens(items).len()) == items_tokens(items),
        t[p + items_tokens(items).len()] is BracketSquareClose,
        1 <= depth <= MAX_DEPTH,
    ensures
        spec_array_items(t, p, depth, done) == if depth + items_nesting(items) <= MAX_DEPTH {
            Ok((JsonTree::Array(done + items), p + items_tokens(items).len() + 1))
        } else {
            Err(SpecParseError::TooDeep { depth: MAX_DEPTH + 1 })
        },
    decreases items, 0int,
{
    let first = items[0];
    let ft = tree_tokens(first);
    let it = items_tokens(items);
    lemma_spelling_starts_value(first);
    if items.len() == 1 {
        assert(it == ft);
    } else {
        let rest = items_tokens(items.skip(1));
        assert(it == ft + seq![SpecToken::Comma] + rest);
        lemma_split(t, p, ft + seq![SpecToken::Comma], rest);
        lemma_split(t, p, ft, seq![SpecToken::Comma]);
        assert(t[p + ft.len()] == t.subrange(p + ft.len(), p + ft.len() + 1)[0]);
    }
    assert(t[p] == t.subrange(p, p + ft.len())[0]);
    lemma_read_tree(t, p, depth, first);
    assert(items_nesting(items) == if nesting(first) >= items_nesting(items.skip(1)) {
        nesting(first)
    } else {
        items_nesting(items.skip(1))
    });
    if depth + nesting(first) <= MAX_DEPTH {
        if items.len() == 1 {
            assert(done.push(first) =~= done + items);
            assert(items_nesting(items.skip(1)) == 0);
            assert(spec_array_items(t, p, depth, done) == Ok::<_, SpecParseError>(
                (JsonTree::Array(done.push(first)), p + ft.len() + 1),
            ));
        } else {
            lemma_read_items(t, p + ft.len() + 1, depth, items.skip(1), done.push(first));
            assert(done.push(first) + items.skip(1) =~= done + items);
        }
    }
}

/// Reading the spelling of the members `members`, followed by `}`, after the members `done`.
proof fn lemma_read_members(
    t: Seq<SpecToken>,
    p: int,
    depth: int,
    members: Seq<(Seq<char>, JsonTree)>,
    done: Seq<(Seq<char>, JsonTree)>,
)
    requires
        0 <= p,
        members.len() > 0,
        p + members_tokens(members).len() < t.len(),
        t.subrange(p, p + members_tokens(members).len()) == members_tokens(members),
        t[p + members_tokens(members).len()] is BraceCurlyClose,
        1 <= depth <= MAX_DEPTH,
    ensures
        spec_object_members(t, p, depth, done) == if depth + members_nesting(members) <= MAX_DEPTH {
            Ok((JsonTree::Object(done + members), p + members_tokens(members).len() + 1))
        } else {
            Err(SpecParseError::TooDeep { depth: MAX_DEPTH + 1 })
        },
    decreases members, 0int,
{
    let (key, value) = members[0];
    let head = seq![SpecToken::Str(key), SpecToken::Colon];
    let vt = tree_tokens(value);
    let mt = members_tokens(members);
    lemma_spelling_starts_value(value);
    if members.len() == 1 {
        assert(mt == head + vt);
    } else {
        let rest = members_tokens(members.skip(1));
        assert(mt == head + vt + seq![SpecToken::Comma] + rest);
        lemma_split(t, p, head + vt + seq![SpecToken::Comma], rest);
        lemma_split(t, p, head + vt, seq![SpecToken::Comma]);
        assert(t[p + 2 + vt.len()] == t.subrange(p + 2 + vt.len(), p + 2 + vt.len() + 1)[0]);
    }
    lemma_split(t, p, head, vt);
    assert(t[p] == t.subrange(p, p + 2)[0]);
    assert(t[p + 1] == t.subrange(p, p + 2)[1]);
    lemma_read_tree(t, p + 2, depth, value);
    assert(t[p] == SpecToken::Str(key));
    assert(members_nesting(members) == if nesting(value) >= members_nesting(members.skip(1)) {
        nesting(value)
    } else {
        members_nesting(members.skip(1))
    });
    if depth + nesting(value) <= MAX_DEPTH {
        if members.len() == 1 {
            assert(done.push((key, value)) =~= done + members);
            assert(members_nesting(members.skip(1)) == 0);
            assert(spec_object_members(t, p, depth, done) == Ok::<_, SpecParseError>(
                (JsonTree::Object(done.push((key, value))), p + 2 + vt.len() + 1),
            ));
        } else {
            let next = p + 2 + vt.len() + 1;
            lemma_read_members(t, next, depth, members.skip(1), done.push((key, value)));
            assert(done.push((key, value)) + members.skip(1) =~= done + members);
        }
    }
}

/// Reading back: the parser reads the tokens that spell an object or an array, nested at most
/// `MAX_DEPTH` deep, as exactly that document.
pub proof fn lemma_parse_reads_back(v: JsonTree)
    requires
        v is Object || v is Array,
        nesting(v) <= MAX_DEPTH,
    ensures
        spec_parse_tokens(tree_tokens(v)) == Ok::<JsonTree, SpecParseError>(v),
{
    let t = tree_tokens(v);
    lemma_spelling_starts_value(v);
    assert(t.subrange(0, t.len() as int) =~= t);
    lemma_read_tree(t, 0, 0, v);
}

/// The depth limit: the parser refuses the tokens that spell an object or an array nested
/// deeper than `MAX_DEPTH`, saying that a container opened one level too deep.
pub proof fn lemma_parse_refuses_too_deep(v: JsonTree)
    requires
        v is Object || v is Array,
        nesting(v) > MAX_DEPTH,
    ensures
        spec_parse_tokens(tree_tokens(v)) == Err::<JsonTree, SpecParseError>(
            SpecParseError::TooDeep { depth: MAX_DEPTH + 1 },
        ),
{
    let t = tree_tokens(v);
    lemma_spelling_starts_value(v);
    assert(t.subrange(0, t.len() as int) =~= t);
    lemma_read_tree(t, 0, 0, v);
}

/// Appending an item: the deepest nesting is that of the items before or that of the new one.
proof fn lemma_items_nesting_push(items: Seq<JsonTree>, v: JsonTree)
    ensures
        items_nesting(items.push(v)) == if items_nesting(items) >= nesting(v) {
            items_nesting(items)
        } else {
            nesting(v)
        },
    decreases items.len(),
{
    if items.len() > 0 {
        assert(items.push(v).skip(1) =~= items.skip(1).push(v));
        assert(items.push(v)[0] == items[0]);
        lemma_items_nesting_push(items.skip(1), v);
    } else {
        assert(items.push(v).skip(1) =~= Seq::<JsonTree>::empty());
        assert(items.push(v)[0] == v);
        assert(items_nesting(Seq::<JsonTree>::empty()) == 0);
    }
}

/// Appending a member: the deepest nesting is that of the members before or that of the new one.
proof fn lemma_members_nesting_push(members: Seq<(Seq<char>, JsonTree)>, m: (Seq<char>, JsonTree))
    ensures
        members_nesting(members.push(m)) == if members_nesting(members) >= nesting(m.1) {
            members_nesting(members)
        } else {
            nesting(m.1)
        },
    decreases members.len(),
{
    if members.len() > 0 {
        assert(members.push(m).skip(1) =~= members.skip(1).push(m));
        assert(members.push(m)[0] == members[0]);
        lemma_members_nesting_push(members.skip(1), m);
    } else {
        assert(members.push(m).skip(1) =~= Seq::<(Seq<char>, JsonTree)>::empty());
        assert(members.push(m)[0] == m);
        assert(members_nesting(Seq::<(Seq<char>, JsonTree)>::empty()) == 0);
    }
}

/// A value that is read at depth `depth` nests no deeper than the limit allows.
proof fn lemma_value_within_limit(t: Seq<SpecToken>, i: int, depth: int)
    requires
        0 <= depth,
    ensures
        spec_parse_value(t, i, depth) matches Ok((v, _)) ==> depth + nesting(v) <= MAX_DEPTH,
    decreases t.len() - i, 1int,
{
    if depth <= MAX_DEPTH && 0 <= i < t.len() {
        match t[i] {
            SpecToken::BraceCurlyOpen => lemma_object_within_limit(t, i + 1, depth + 1),
            SpecToken::BracketSquareOpen => lemma_array_within_limit(t, i + 1, depth + 1),
            _ => {},
        }
    }
}

/// An object that is read as the container at level `depth` nests within the limit.
proof fn lemma_object_within_limit(t: Seq<SpecToken>, i: int, depth: int)
    requires
        1 <= depth,
    ensures
        spec_parse_object(t, i, depth) matches Ok((v, _)) ==> v is Object && depth - 1 + nesting(v)
            <= MAX_DEPTH,
    decreases t.len() - i, 3int,
{
    if depth <= MAX_DEPTH {
        lemma_members_within_limit(t, i, depth, Seq::empty());
    }
}

/// The rest of an object, read after members that nest within the limit, nests within it.
proof fn lemma_members_within_limit(
    t: Seq<SpecToken>,
    i: int,
    depth: int,
    members: Seq<(Seq<char>, JsonTree)>,
)
    requires
        1 <= depth <= MAX_DEPTH,
        depth + members_nesting(members) <= MAX_DEPTH,
    ensures
        spec_object_members(t, i, depth, members) matches Ok((v, _)) ==> v is Object && depth
            + members_nesting(v->Object_0) <= MAX_DEPTH,
    decreases t.len() - i, 2int,
{
    if 0 <= i < t.len() && t[i] is Str && i + 1 < t.len() && t[i + 1] is Colon {
        lemma_value_within_limit(t, i + 2, depth);
        if let Ok((value, j)) = spec_parse_value(t, i + 2, depth) {
            let m = (t[i]->Str_0, value);
            lemma_members_nesting_push(members, m);
            if i < j < t.len() && t[j] is Comma {
                lemma_members_within_limit(t, j + 1, depth, members.push(m));
            }
        }
    }
}

/// An array that is read as the container at level `depth` nests within the limit.
proof fn lemma_array_within_limit(t: Seq<SpecToken>, i: int, depth: int)
    requires
        1 <= depth,
    ensures
        spec_parse_array(t, i, depth) matches Ok((v, _)) ==> v is Array && depth - 1 + nesting(v)
            <= MAX_DEPTH,
    decreases t.len() - i, 3int,
{
    if depth <= MAX_DEPTH {
        lemma_items_within_limit(t, i, depth, Seq::empty());
    }
}

/// The rest of an array, read after items that nest within the limit, nests within it.
proof fn lemma_items_within_limit(t: Seq<SpecToken>, i: int, depth: int, items: Seq<JsonTree>)
    requires
        1 <= depth <= MAX_DEPTH,
        depth + items_nesting(items) <= MAX_DEPTH,
    ensures
        spec_array_items(t, i, depth, items) matches Ok((v, _)) ==> v is Array && depth
            + items_nesting(v->Array_0) <= MAX_DEPTH,
    decreases t.len() - i, 2int,
{
    if 0 <= i < t.len() && !(t[i] is BracketSquareClose) {
        lemma_value_within_limit(t, i, depth);
        if let Ok((value, j)) = spec_parse_value(t, i, depth) {
            lemma_items_nesting_push(items, value);
            if i < j < t.len() && t[j] is Comma {
                lemma_items_within_limit(t, j + 1, depth, items.push(value));
            }
        }
    }
}

/// What the parser gives is an object or an array, nested at most `MAX_DEPTH` deep.
pub proof fn lemma_parse_gives_bounded_container(t: Seq<SpecToken>)
    ensures
        spec_parse_tokens(t) matches Ok(v) ==> (v is Object || v is Array) && nesting(v)
            <= MAX_DEPTH,
{
    if t.len() > 0 && (t[0] is BraceCurlyOpen || t[0] is BracketSquareOpen) {
        lemma_value_within_limit(t, 0, 0);
        if t[0] is BraceCurlyOpen {
            lemma_object_within_limit(t, 1, 1);
        } else {
            lemma_array_within_limit(t, 1, 1);
        }
    }
}

/// Whether the text of every number in `v` is one that Rust's `f64` parser accepts.
pub open spec fn numbers_valid(v: JsonTree) -> bool
    decreases v,
{
    match v {
        JsonTree::Number(text) => is_float_literal(text),
        JsonTree::Array(items) => items_numbers_valid(items),
        JsonTree::Object(members) => members_numbers_valid(members),
        _ => true,
    }
}

/// Whether the numbers in every one of `items` are valid.
pub open spec fn items_numbers_valid(items: Seq<JsonTree>) -> bool
    decreases items,
{
    items.len() == 0 || (numbers_valid(items[0]) && items_numbers_valid(items.skip(1)))
}

/// Whether the numbers in the value of every one of `members` are valid.
pub open spec fn members_numbers_valid(members: Seq<(Seq<char>, JsonTree)>) -> bool
    decreases members,
{
    members.len() == 0 || (numbers_valid(members[0].1) && members_numbers_valid(members.skip(1)))
}

proof fn lemma_items_numbers_push(items: Seq<JsonTree>, v: JsonTree)
    ensures
        items_numbers_valid(items.push(v)) == (items_numbers_valid(items) && numbers_valid(v)),
    decreases items.len(),
{
    if items.len() > 0 {
        assert(items.push(v).skip(1) =~= items.skip(1).push(v));
        assert(items.push(v)[0] == items[0]);
        lemma_items_numbers_push(items.skip(1), v);
    } else {
        assert(items.push(v).skip(1) =~= Seq::<JsonTree>::empty());
        assert(items.push(v)[0] == v);
        assert(items_numbers_valid(items.push(v).skip(1)));
        assert(items_numbers_valid(items));
    }
}

proof fn lemma_members_numbers_push(members: Seq<(Seq<char>, JsonTree)>, m: (Seq<char>, JsonTree))
    ensures
        members_numbers_valid(members.push(m)) == (members_numbers_valid(members) && numbers_valid(
            m.1,
        )),
    decreases members.len(),
{
    if members.len() > 0 {
        assert(members.push(m).skip(1) =~= members.skip(1).push(m));
        assert(members.push(m)[0] == members[0]);
        lemma_members_numbers_push(members.skip(1), m);
    } else {
        assert(members.push(m).skip(1) =~= Seq::<(Seq<char>, JsonTree)>::empty());
        assert(members.push(m)[0] == m);
        assert(members_numbers_valid(members.push(m).skip(1)));
        assert(members_numbers_valid(members));
    }
}

/// A value read from tokens whose numbers are valid has valid numbers.
proof fn lemma_value_numbers(t: Seq<SpecToken>, i: int, depth: int)
    requires
        numbers_parse(t),
    ensures
        spec_parse_value(t, i, depth) matches Ok((v, _)) ==> numbers_valid(v),
    decreases t.len() - i, 1int,
{
    if depth <= MAX_DEPTH && 0 <= i < t.len() {
        match t[i] {
            SpecToken::BraceCurlyOpen => {
                if depth + 1 <= MAX_DEPTH {
                    lemma_members_numbers(t, i + 1, depth + 1, Seq::empty());
                }
            },
            SpecToken::BracketSquareOpen => {
                if depth + 1 <= MAX_DEPTH {
                    lemma_items_numbers(t, i + 1, depth + 1, Seq::empty());
                }
            },
            _ => {},
        }
    }
}

/// The rest of an object, read after members with valid numbers, has valid numbers.
proof fn lemma_members_numbers(
    t: Seq<SpecToken>,
    i: int,
    depth: int,
    members: Seq<(Seq<char>, JsonTree)>,
)
    requires
        numbers_parse(t),
        members_numbers_valid(members),
    ensures
        spec_object_members(t, i, depth, members) matches Ok((v, _)) ==> numbers_valid(v),
    decreases t.len() - i, 2int,
{
    if 0 <= i < t.len() && t[i] is Str && i + 1 < t.len() && t[i + 1] is Colon {
        lemma_value_numbers(t, i + 2, depth);
        if let Ok((value, j)) = spec_parse_value(t, i + 2, depth) {
            let m = (t[i]->Str_0, value);
            lemma_members_numbers_push(members, m);
            if i < j < t.len() && t[j] is Comma {
                lemma_members_numbers(t, j + 1, depth, members.push(m));
            }
        }
    }
}

/// The rest of an array, read after items with valid numbers, has valid numbers.
proof fn lemma_items_numbers(t: Seq<SpecToken>, i: int, depth: int, items: Seq<JsonTree>)
    requires
        numbers_parse(t),
        items_numbers_valid(items),
    ensures
        spec_array_items(t, i, depth, items) matches Ok((v, _)) ==> numbers_valid(v),
    decreases t.len() - i, 2int,
{
    if 0 <= i < t.len() && !(t[i] is BracketSquareClose) {
        lemma_value_numbers(t, i, depth);
        if let Ok((value, j)) = spec_parse_value(t, i, depth) {
            lemma_items_numbers_push(items, value);
            if i < j < t.len() && t[j] is Comma {
                lemma_items_numbers(t, j + 1, depth, items.push(value));
            }
        }
    }
}

/// What the parser gives from tokens whose numbers parse as `f64` has numbers that do.
pub proof fn lemma_parse_keeps_numbers(t: Seq<SpecToken>)
    requires
        numbers_parse(t),
    ensures
        spec_parse_tokens(t) matches Ok(v) ==> numbers_valid(v),
{
    lemma_value_numbers(t, 0, 0);
}

/// Whether no `}`, `]`, `,` or `:` in `t` comes right after a comma.
pub open spec fn no_comma_before_closing(t: Seq<SpecToken>) -> bool {
    forall|k: int| 0 < k < t.len() && is_closing_token(#[trigger] t[k]) ==> !(t[k - 1] is Comma)
}

/// Tokens that stand where the tokenizer lets them stand have no comma before a closing token.
pub proof fn lemma_well_placed_no_comma_before_closing(t: Seq<SpecToken>)
    requires
        well_placed(t),
    ensures
        no_comma_before_closing(t),
{
    assert forall|k: int| 0 < k < t.len() && is_closing_token(#[trigger] t[k]) implies !(t[k
        - 1] is Comma) by {
        assert(t.take(k).last() == t[k - 1]);
    }
}

/// A value that is read is spelled by the tokens it was read from.
proof fn lemma_value_spelled(t: Seq<SpecToken>, i: int, depth: int)
    requires
        no_comma_before_closing(t),
    ensures
        spec_parse_value(t, i, depth) matches Ok((v, j)) ==> 0 <= i <= j <= t.len()
            && t.subrange(i, j) == tree_tokens(v),
    decreases t.len() - i, 1int,
{
    lemma_parse_value_advances(t, i, depth);
    if depth <= MAX_DEPTH && 0 <= i < t.len() {
        match t[i] {
            SpecToken::BraceCurlyOpen => {
                lemma_object_spelled(t, i + 1, depth + 1);
                if let Ok((v, j)) = spec_parse_value(t, i, depth) {
                    let inner = members_tokens(v->Object_0);
                    assert(t.subrange(i, j) =~= seq![SpecToken::BraceCurlyOpen] + t.subrange(
                        i + 1,
                        j,
                    ));
                    assert(tree_tokens(v) == seq![SpecToken::BraceCurlyOpen] + inner + seq![
                        SpecToken::BraceCurlyClose,
                    ]);
                    assert(tree_tokens(v) =~= seq![SpecToken::BraceCurlyOpen] + (inner + seq![
                        SpecToken::BraceCurlyClose,
                    ]));
                }
            },
            SpecToken::BracketSquareOpen => {
                lemma_array_spelled(t, i + 1, depth + 1);
                if let Ok((v, j)) = spec_parse_value(t, i, depth) {
                    let inner = items_tokens(v->Array_0);
                    assert(t.subrange(i, j) =~= seq![SpecToken::BracketSquareOpen] + t.subrange(
                        i + 1,
                        j,
                    ));
                    assert(tree_tokens(v) == seq![SpecToken::BracketSquareOpen] + inner + seq![
                        SpecToken::BracketSquareClose,
                    ]);
                    assert(tree_tokens(v) =~= seq![SpecToken::BracketSquareOpen] + (inner + seq![
                        SpecToken::BracketSquareClose,
                    ]));
                }
            },
            _ => {
                if let Ok((v, j)) = spec_parse_value(t, i, depth) {
                    assert(t.subrange(i, j) =~= seq![t[i]]);
                }
            },
        }
    }
}

/// An object that is read, from after its `{`, is spelled by its members and its `}`.
proof fn lemma_object_spelled(t: Seq<SpecToken>, i: int, depth: int)
    requires
        no_comma_before_closing(t),
    ensures
        spec_parse_object(t, i, depth) matches Ok((v, j)) ==> v is Object && 0 <= i <= j <= t.len()
            && t.subrange(i, j) == members_tokens(v->Object_0) + seq![SpecToken::BraceCurlyClose],
    decreases t.len() - i, 3int,
{
    lemma_parse_object_advances(t, i, depth);
    if depth <= MAX_DEPTH {
        lemma_members_spelled(t, i, depth, Seq::empty());
        if let Ok((v, j)) = spec_parse_object(t, i, depth) {
            assert(v->Object_0.skip(0) =~= v->Object_0);
        }
    }
}

/// The rest of an object that is read after the members `done` is spelled by its further
/// members and its `}`; after a comma there is at least one further member.
proof fn lemma_members_spelled(
    t: Seq<SpecToken>,
    p: int,
    depth: int,
    done: Seq<(Seq<char>, JsonTree)>,
)
    requires
        no_comma_before_closing(t),
        done.len() > 0 ==> 0 < p <= t.len() && t[p - 1] is Comma,
    ensures
        spec_object_members(t, p, depth, done) matches Ok((v, j)) ==> {
            let all = v->Object_0;
            &&& v is Object
            &&& 0 <= p <= j <= t.len()
            &&& done.len() <= all.len()
            &&& all.take(done.len() as int) == done
            &&& done.len() > 0 ==> all.len() > done.len()
            &&& t.subrange(p, j) == members_tokens(all.skip(done.len() as int)) + seq![
                SpecToken::BraceCurlyClose,
            ]
        },
    decreases t.len() - p, 2int,
{
    lemma_object_members_advance(t, p, depth, done);
    if 0 <= p < t.len() && t[p] is BraceCurlyClose {
        if done.len() > 0 {
            assert(is_closing_token(t[p]));
        }
        if let Ok((v, j)) = spec_object_members(t, p, depth, done) {
            assert(v->Object_0.take(done.len() as int) =~= done);
            assert(v->Object_0.skip(done.len() as int) =~= Seq::<(Seq<char>, JsonTree)>::empty());
            assert(t.subrange(p, j) =~= seq![SpecToken::BraceCurlyClose]);
            assert(seq![SpecToken::BraceCurlyClose] =~= Seq::<SpecToken>::empty() + seq![
                SpecToken::BraceCurlyClose,
            ]);
        }
    } else if 0 <= p < t.len() && t[p] is Str && p + 1 < t.len() && t[p + 1] is Colon {
        let key = t[p]->Str_0;
        lemma_value_spelled(t, p + 2, depth);
        lemma_parse_value_advances(t, p + 2, depth);
        if let Ok((value, q)) = spec_parse_value(t, p + 2, depth) {
            let m = (key, value);
            let head = seq![SpecToken::Str(key), SpecToken::Colon] + tree_tokens(value);
            assert(t.subrange(p, q) =~= seq![SpecToken::Str(key), SpecToken::Colon] + t.subrange(
                p + 2,
                q,
            ));
            if p < q < t.len() && t[q] is Comma {
                lemma_members_spelled(t, q + 1, depth, done.push(m));
                if let Ok((v, j)) = spec_object_members(t, p, depth, done) {
                    let all = v->Object_0;
                    let more = all.skip(done.len() as int);
                    let rest = all.skip((done.len() + 1) as int);
                    assert(all.take((done.len() + 1) as int) == done.push(m));
                    assert(all.take(done.len() as int) =~= all.take((done.len() + 1) as int).take(
                        done.len() as int,
                    ));
                    assert(done.push(m).take(done.len() as int) =~= done);
                    assert(more[0] == all[done.len() as int]);
                    let d = done.len() as int;
                    assert(all[d] == all.take(d + 1)[d]);
                    assert(more.skip(1) =~= rest);
                    assert(members_tokens(more) == head + seq![SpecToken::Comma] + members_tokens(
                        more.skip(1),
                    ));
                    assert(t.subrange(p, j) =~= t.subrange(p, q) + seq![SpecToken::Comma]
                        + t.subrange(q + 1, j));
                    assert(t.subrange(p, j) =~= members_tokens(more) + seq![
                        SpecToken::BraceCurlyClose,
                    ]);
                }
            } else if 0 <= q < t.len() && t[q] is BraceCurlyClose {
                if let Ok((v, j)) = spec_object_members(t, p, depth, done) {
                    let all = v->Object_0;
                    assert(all == done.push(m));
                    assert(all.take(done.len() as int) =~= done);
                    assert(all.skip(done.len() as int) =~= seq![m]);
                    assert(members_tokens(seq![m]) == head);
                    assert(t.subrange(p, j) =~= t.subrange(p, q) + seq![
                        SpecToken::BraceCurlyClose,
                    ]);
                }
            }
        }
    }
}

/// An array that is read, from after its `[`, is spelled by its items and its `]`.
proof fn lemma_array_spelled(t: Seq<SpecToken>, i: int, depth: int)
    requires
        no_comma_before_closing(t),
    ensures
        spec_parse_array(t, i, depth) matches Ok((v, j)) ==> v is Array && 0 <= i <= j <= t.len()
            && t.subrange(i, j) == items_tokens(v->Array_0) + seq![SpecToken::BracketSquareClose],
    decreases t.len() - i, 3int,
{
    lemma_parse_array_advances(t, i, depth);
    if depth <= MAX_DEPTH {
        lemma_items_spelled(t, i, depth, Seq::empty());
        if let Ok((v, j)) = spec_parse_array(t, i, depth) {
            assert(v->Array_0.skip(0) =~= v->Array_0);
        }
    }
}

/// The rest of an array that is read after the items `done` is spelled by its further items
/// and its `]`; after a comma there is at least one further item.
proof fn lemma_items_spelled(t: Seq<SpecToken>, p: int, depth: int, done: Seq<JsonTree>)
    requires
        no_comma_before_closing(t),
        done.len() > 0 ==> 0 < p <= t.len() && t[p - 1] is Comma,
    ensures
        spec_array_items(t, p, depth, done) matches Ok((v, j)) ==> {
            let all = v->Array_0;
            &&& v is Array
            &&& 0 <= p <= j <= t.len()
            &&& done.len() <= all.len()
            &&& all.take(done.len() as int) == done
            &&& done.len() > 0 ==> all.len() > done.len()
            &&& t.subrange(p, j) == items_tokens(all.skip(done.len() as int)) + seq![
                SpecToken::BracketSquareClose,
            ]
        },
    decreases t.len() - p, 2int,
{
    lemma_array_items_advance(t, p, depth, done);
    if 0 <= p < t.len() && t[p] is BracketSquareClose {
        if done.len() > 0 {
            assert(is_closing_token(t[p]));
        }
        if let Ok((v, j)) = spec_array_items(t, p, depth, done) {
            assert(v->Array_0.take(done.len() as int) =~= done);
            assert(v->Array_0.skip(done.len() as int) =~= Seq::<JsonTree>::empty());
            assert(t.subrange(p, j) =~= seq![SpecToken::BracketSquareClose]);
            assert(seq![SpecToken::BracketSquareClose] =~= Seq::<SpecToken>::empty() + seq![
                SpecToken::BracketSquareClose,
            ]);
        }
    } else if 0 <= p < t.len() {
        lemma_value_spelled(t, p, depth);
        lemma_parse_value_advances(t, p, depth);
        if let Ok((value, q)) = spec_parse_value(t, p, depth) {
            let head = tree_tokens(value);
            if p < q < t.len() && t[q] is Comma {
                lemma_items_spelled(t, q + 1, depth, done.push(value));
                if let Ok((v, j)) = spec_array_items(t, p, depth, done) {
                    let all = v->Array_0;
                    let more = all.skip(done.len() as int);
                    let rest = all.skip((done.len() + 1) as int);
                    assert(all.take((done.len() + 1) as int) == done.push(value));
                    assert(all.take(done.len() as int) =~= all.take((done.len() + 1) as int).take(
                        done.len() as int,
                    ));
                    assert(done.push(value).take(done.len() as int) =~= done);
                    assert(more[0] == all[done.len() as int]);
                    let d = done.len() as int;
                    assert(all[d] == all.take(d + 1)[d]);
                    assert(more.skip(1) =~= rest);
                    assert(items_tokens(more) == head + seq![SpecToken::Comma] + items_tokens(
                        more.skip(1),
                    ));
                    assert(t.subrange(p, j) =~= t.subrange(p, q) + seq![SpecToken::Comma]
                        + t.subrange(q + 1, j));
                    assert(t.subrange(p, j) =~= items_tokens(more) + seq![
                        SpecToken::BracketSquareClose,
                    ]);
                }
            } else if 0 <= q < t.len() && t[q] is BracketSquareClose {
                if let Ok((v, j)) = spec_array_items(t, p, depth, done) {
                    let all = v->Array_0;
                    assert(all == done.push(value));
                    assert(all.take(done.len() as int) =~= done);
                    assert(all.skip(done.len() as int) =~= seq![value]);
                    assert(items_tokens(seq![value]) == head);
                    assert(t.subrange(p, j) =~= t.subrange(p, q) + seq![
                        SpecToken::BracketSquareClose,
                    ]);
                }
            }
        }
    }
}

/// Reading is exact: when no closing token follows a comma, the tokens the parser reads a
/// document from are exactly the tokens that spell it.
pub proof fn lemma_parse_reads_only_spellings(t: Seq<SpecToken>)
    requires
        no_comma_before_closing(t),
    ensures
        spec_parse_tokens(t) matches Ok(v) ==> t == tree_tokens(v),
{
    lemma_value_spelled(t, 0, 0);
    if let Ok(v) = spec_parse_tokens(t) {
        assert(t.subrange(0, t.len() as int) =~= t);
    }
}

} // verus!

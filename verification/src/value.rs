use vstd::prelude::*;

verus! {

/// A parsed JSON document.
///
/// A number is kept as the text it was written with (see [`crate::token::Token`]).
/// Object members keep the order in which they were written, duplicates included.
#[derive(Debug, PartialEq)]
pub enum JsonValue {
    String(String),
    Number(String),
    Object(Vec<(String, JsonValue)>),
    Array(Vec<JsonValue>),
    Boolean(bool),
    Null,
}

/// The mathematical model of a [`JsonValue`].
pub enum JsonTree {
    String(Seq<char>),
    Number(Seq<char>),
    Object(Seq<(Seq<char>, JsonTree)>),
    Array(Seq<JsonTree>),
    Boolean(bool),
    Null,
}

impl JsonValue {
    /// The model of this value.
    pub open spec fn tree(self) -> JsonTree
        decreases self,
    {
        match self {
            JsonValue::String(s) => JsonTree::String(s@),
            JsonValue::Number(s) => JsonTree::Number(s@),
            JsonValue::Object(members) => JsonTree::Object(member_trees(members@)),
            JsonValue::Array(items) => JsonTree::Array(item_trees(items@)),
            JsonValue::Boolean(b) => JsonTree::Boolean(b),
            JsonValue::Null => JsonTree::Null,
        }
    }
}

/// The models of a sequence of values, one for one.
pub open spec fn item_trees(items: Seq<JsonValue>) -> Seq<JsonTree>
    decreases items,
{
    if items.len() == 0 {
        Seq::empty()
    } else {
        item_trees(items.drop_last()).push(items.last().tree())
    }
}

/// The models of a sequence of object members, one for one.
pub open spec fn member_trees(members: Seq<(String, JsonValue)>) -> Seq<(Seq<char>, JsonTree)>
    decreases members,
{
    if members.len() == 0 {
        Seq::empty()
    } else {
        member_trees(members.drop_last()).push(
            (members.last().0@, members.last().1.tree()),
        )
    }
}

/// Appending a value appends its model.
pub proof fn lemma_item_trees_push(items: Seq<JsonValue>, item: JsonValue)
    ensures
        item_trees(items.push(item)) == item_trees(items).push(item.tree()),
{
    assert(items.push(item).drop_last() =~= items);
}

/// Appending a member appends its model.
pub proof fn lemma_member_trees_push(members: Seq<(String, JsonValue)>, member: (String, JsonValue))
    ensures
        member_trees(members.push(member)) == member_trees(members).push(
            (member.0@, member.1.tree()),
        ),
{
    assert(members.push(member).drop_last() =~= members);
}

} // verus!

//! JSON values: the type that the conversion to bencode works on, and what it means.

use vstd::prelude::*;
use vstd::utf8::{encode_utf8, encode_utf8_decode_utf8};

verus! {

/// A JSON value, holding what the conversion to bencode reads of it.
#[derive(Debug, PartialEq, Eq)]
pub enum Json {
    Null,
    Bool(bool),
    /// A number: its value if it is a signed 64-bit integer, and `None` otherwise.
    Number(Option<i64>),
    String(String),
    Array(Vec<Json>),
    /// The keys and values of an object.
    Object(Vec<(String, Json)>),
}

/// What a [`Json`] value means: the same tree over mathematical sequences.
#[verifier::ext_equal]
pub enum JsonTree {
    Null,
    Bool(bool),
    Number(Option<i64>),
    String(Seq<char>),
    Array(Seq<JsonTree>),
    Object(Seq<(Seq<char>, JsonTree)>),
}

impl View for Json {
    type V = JsonTree;

    open spec fn view(&self) -> JsonTree {
        json_tree(*self)
    }
}

/// The tree that a JSON value stands for.
pub open spec fn json_tree(value: Json) -> JsonTree
    decreases value,
{
    match value {
        Json::Null => JsonTree::Null,
        Json::Bool(flag) => JsonTree::Bool(flag),
        Json::Number(number) => JsonTree::Number(number),
        Json::String(text) => JsonTree::String(text@),
        Json::Array(items) => JsonTree::Array(json_trees(items@)),
        Json::Object(members) => JsonTree::Object(json_members(members@)),
    }
}

/// The trees of a sequence of JSON values.
pub open spec fn json_trees(items: Seq<Json>) -> Seq<JsonTree>
    decreases items,
{
    Seq::new(
        items.len(),
        |i: int|
            if 0 <= i < items.len() {
                json_tree(items[i])
            } else {
                JsonTree::Null
            },
    )
}

/// The keys and trees of the members of an object.
pub open spec fn json_members(members: Seq<(String, Json)>) -> Seq<(Seq<char>, JsonTree)>
    decreases members,
{
    Seq::new(
        members.len(),
        |i: int|
            if 0 <= i < members.len() {
                (members[i].0@, json_tree(members[i].1))
            } else {
                (Seq::empty(), JsonTree::Null)
            },
    )
}

/// Whether `first` comes before `second` when byte strings are ordered like words in a dictionary.
pub open spec fn bytes_before(first: Seq<u8>, second: Seq<u8>) -> bool
    decreases first.len(),
{
    if second.len() == 0 {
        false
    } else if first.len() == 0 {
        true
    } else if first[0] != second[0] {
        first[0] < second[0]
    } else {
        bytes_before(first.drop_first(), second.drop_first())
    }
}

/// Whether `first` comes before `second` when texts are ordered by the bytes that encode them.
pub open spec fn text_before(first: Seq<char>, second: Seq<char>) -> bool {
    bytes_before(encode_utf8(first), encode_utf8(second))
}

/// Whether each key comes before every later one, so that none occurs twice.
pub open spec fn keys_ascend(members: Seq<(Seq<char>, JsonTree)>) -> bool {
    forall|i: int, j: int|
        0 <= i < j < members.len() ==> text_before(#[trigger] members[i].0, #[trigger] members[j].0)
}

/// Whether the keys ascend in every object of the tree.
pub open spec fn ordered(tree: JsonTree) -> bool
    decreases tree,
{
    match tree {
        JsonTree::Array(items) => forall|i: int|
            0 <= i < items.len() ==> ordered(#[trigger] items[i]),
        JsonTree::Object(members) => keys_ascend(members) && forall|i: int|
            0 <= i < members.len() ==> ordered((#[trigger] members[i]).1),
        _ => true,
    }
}

/// Whether every number of the tree is a signed 64-bit integer.
pub open spec fn integral(tree: JsonTree) -> bool
    decreases tree,
{
    match tree {
        JsonTree::Number(number) => number is Some,
        JsonTree::Array(items) => forall|i: int|
            0 <= i < items.len() ==> integral(#[trigger] items[i]),
        JsonTree::Object(members) => forall|i: int|
            0 <= i < members.len() ==> integral((#[trigger] members[i]).1),
        _ => true,
    }
}

/// Whether the text holds no character that ends a line beyond ASCII: no line separator and no
/// paragraph separator.
pub open spec fn unbroken_text(text: Seq<char>) -> bool {
    forall|i: int|
        0 <= i < text.len() ==> #[trigger] text[i] != '\u{2028}' && text[i] != '\u{2029}'
}

/// Whether neither the strings nor the keys of the tree hold a line or paragraph separator.
pub open spec fn unbroken(tree: JsonTree) -> bool
    decreases tree,
{
    match tree {
        JsonTree::String(text) => unbroken_text(text),
        JsonTree::Array(items) => forall|i: int|
            0 <= i < items.len() ==> unbroken(#[trigger] items[i]),
        JsonTree::Object(members) => forall|i: int|
            0 <= i < members.len() ==> unbroken_text((#[trigger] members[i]).0) && unbroken(
                members[i].1,
            ),
        _ => true,
    }
}

/// Whether arrays and objects stand at most `levels` deep in one another.
pub open spec fn nests_within(tree: JsonTree, levels: nat) -> bool
    decreases tree,
{
    match tree {
        JsonTree::Array(items) => levels > 0 && forall|i: int|
            0 <= i < items.len() ==> nests_within(#[trigger] items[i], (levels - 1) as nat),
        JsonTree::Object(members) => levels > 0 && forall|i: int|
            0 <= i < members.len() ==> nests_within((#[trigger] members[i]).1, (levels - 1) as nat),
        _ => true,
    }
}

/// How many of the first members have a key that comes before `key`.
pub open spec fn members_before(members: Seq<(Seq<char>, JsonTree)>, key: Seq<char>) -> nat
    decreases members.len(),
{
    if members.len() == 0 || !text_before(members[0].0, key) {
        0
    } else {
        1 + members_before(members.drop_first(), key)
    }
}

/// The members of an object after a value was put under `key`: in place of the value that was
/// there, or else as a new member at the place that keeps the keys in order.
pub open spec fn with_member(
    members: Seq<(Seq<char>, JsonTree)>,
    key: Seq<char>,
    value: JsonTree,
) -> Seq<(Seq<char>, JsonTree)> {
    let place = members_before(members, key) as int;
    if place < members.len() && members[place].0 == key {
        members.update(place, (key, value))
    } else {
        members.insert(place, (key, value))
    }
}

/// The place of a new member lies within the object, behind keys that come before it.
pub proof fn lemma_members_before(members: Seq<(Seq<char>, JsonTree)>, key: Seq<char>)
    ensures
        members_before(members, key) <= members.len(),
        forall|i: int|
            0 <= i < members_before(members, key) ==> text_before(#[trigger] members[i].0, key),
        members_before(members, key) < members.len() ==> !text_before(
            members[members_before(members, key) as int].0,
            key,
        ),
    decreases members.len(),
{
    if members.len() > 0 && text_before(members[0].0, key) {
        let rest = members.drop_first();
        lemma_members_before(rest, key);
        assert forall|i: int| 0 <= i < members_before(members, key) implies text_before(
            #[trigger] members[i].0,
            key,
        ) by {
            if i > 0 {
                assert(rest[i - 1] == members[i]);
            }
        }
    }
}

/// No byte string comes before itself.
pub proof fn lemma_not_before_itself(bytes: Seq<u8>)
    ensures
        !bytes_before(bytes, bytes),
    decreases bytes.len(),
{
    if bytes.len() > 0 {
        lemma_not_before_itself(bytes.drop_first());
    }
}

/// What comes before something comes before all that follows it.
pub proof fn lemma_before_is_transitive(first: Seq<u8>, second: Seq<u8>, third: Seq<u8>)
    requires
        bytes_before(first, second),
        bytes_before(second, third),
    ensures
        bytes_before(first, third),
    decreases first.len(),
{
    if first.len() > 0 && first[0] == second[0] && second[0] == third[0] {
        lemma_before_is_transitive(first.drop_first(), second.drop_first(), third.drop_first());
    }
}

/// Of two different byte strings one comes before the other.
pub proof fn lemma_before_is_total(first: Seq<u8>, second: Seq<u8>)
    requires
        first != second,
    ensures
        bytes_before(first, second) || bytes_before(second, first),
    decreases first.len(),
{
    if first.len() == 0 && second.len() == 0 {
        assert(first =~= second);
    } else if first.len() > 0 && second.len() > 0 && first[0] == second[0] {
        if first.drop_first() == second.drop_first() {
            assert(first =~= seq![first[0]] + first.drop_first());
            assert(second =~= seq![second[0]] + second.drop_first());
        } else {
            lemma_before_is_total(first.drop_first(), second.drop_first());
        }
    }
}

/// Of two different texts one comes before the other.
proof fn lemma_text_before_is_total(first: Seq<char>, second: Seq<char>)
    requires
        first != second,
    ensures
        text_before(first, second) || text_before(second, first),
{
    encode_utf8_decode_utf8(first);
    encode_utf8_decode_utf8(second);
    lemma_before_is_total(encode_utf8(first), encode_utf8(second));
}

/// Putting a value under a key keeps the keys of an object in order.
pub proof fn lemma_with_member_ascends(
    members: Seq<(Seq<char>, JsonTree)>,
    key: Seq<char>,
    value: JsonTree,
)
    requires
        keys_ascend(members),
    ensures
        keys_ascend(with_member(members, key, value)),
{
    let place = members_before(members, key) as int;
    let result = with_member(members, key, value);
    lemma_members_before(members, key);
    if place < members.len() && members[place].0 == key {
        assert forall|i: int, j: int| 0 <= i < j < result.len() implies text_before(
            #[trigger] result[i].0,
            #[trigger] result[j].0,
        ) by {
            assert(result[i].0 == members[i].0 && result[j].0 == members[j].0);
        }
    } else {
        assert forall|i: int, j: int| 0 <= i < j < result.len() implies text_before(
            #[trigger] result[i].0,
            #[trigger] result[j].0,
        ) by {
            if j < place {
                assert(result[i] == members[i] && result[j] == members[j]);
            } else if j == place {
                assert(result[i] == members[i]);
            } else {
                assert(result[j] == members[j - 1]);
                if i < place {
                    assert(result[i] == members[i]);
                } else if i > place {
                    assert(result[i] == members[i - 1]);
                } else {
                    lemma_text_before_is_total(members[place].0, key);
                    if j - 1 > place {
                        lemma_before_is_transitive(
                            encode_utf8(key),
                            encode_utf8(members[place].0),
                            encode_utf8(members[j - 1].0),
                        );
                    }
                }
            }
        }
    }
}

/// A key that comes behind all others is put at the end.
pub proof fn lemma_with_last_member(
    members: Seq<(Seq<char>, JsonTree)>,
    key: Seq<char>,
    value: JsonTree,
)
    requires
        forall|i: int| 0 <= i < members.len() ==> text_before(#[trigger] members[i].0, key),
    ensures
        with_member(members, key, value) == members.push((key, value)),
{
    lemma_members_before(members, key);
    let place = members_before(members, key) as int;
    if place < members.len() {
        assert(text_before(members[place].0, key));
    }
    assert(with_member(members, key, value) =~= members.push((key, value)));
}

} // verus!

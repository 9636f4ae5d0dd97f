//! What the library takes on trust: the functions and types of other crates that it calls.

use serde_json::Value;
use vstd::prelude::*;
use vstd::utf8::{encode_utf8, valid_utf8};

use crate::ascii::{BRACE, BRACKET, NEWLINE, QUOTE};
use crate::decimal::signed_decimal;
use crate::hexadecimal::{hex_reading, hex_text, HexFault};
use crate::json::{
    integral, keys_ascend, nests_within, ordered, unbroken, with_member, JsonTree,
};
use crate::marker::trimmed;

verus! {

/// The text of the error that `core::str::from_utf8` gives on `bytes`.
pub uninterp spec fn utf8_error_text(bytes: Seq<u8>) -> Seq<char>;

/// Calls `core::str::from_utf8`: bytes that are valid UTF-8 are handed back as the text that they
/// encode, and for any others the text of the error is named.
#[verifier::external_body]
pub(crate) fn text_from_utf8(bytes: &[u8]) -> (result: Result<&str, String>)
    ensures
        match result {
            Ok(text) => valid_utf8(bytes@) && encode_utf8(text@) == bytes@,
            Err(message) => !valid_utf8(bytes@) && message@ == utf8_error_text(bytes@),
        },
{
    core::str::from_utf8(bytes).map_err(|error| error.to_string())
}

/// A text as `{:?}` formats it: in quotes, with escapes.
pub uninterp spec fn quoted_text(text: Seq<char>) -> Seq<char>;

/// Calls `format!` with `{:?}` on a text. The result is named.
#[verifier::external_body]
pub(crate) fn quote_text(text: &str) -> (quoted: String)
    ensures
        quoted@ == quoted_text(text@),
{
    format!("{:?}", text)
}

/// A character as `{:?}` formats it: in quotes, with escapes.
pub uninterp spec fn quoted_char(character: char) -> Seq<char>;

/// Calls `format!` with `{:?}` on a character. The result is named.
#[verifier::external_body]
pub(crate) fn quote_char(character: char) -> (quoted: String)
    ensures
        quoted@ == quoted_char(character),
{
    format!("{:?}", character)
}

/// `str::trim` takes away the white space at both ends of a text, as Unicode defines it.
pub assume_specification[ str::trim ](text: &str) -> (result: &str)
    ensures
        result@ == trimmed(text@),
;

/// Calls `hex::encode`: two lowercase hexadecimal digits for each byte.
#[verifier::external_body]
pub(crate) fn hex_encode(bytes: &[u8]) -> (text: String)
    ensures
        text@ == hex_text(bytes@),
{
    hex::encode(bytes)
}

/// Calls `hex::decode`, which reads pairs of hexadecimal digits in either case, refuses an odd
/// number of bytes, and otherwise names the first byte that is not a digit.
#[verifier::external_body]
pub(crate) fn hex_decode(digits: &str) -> (result: Result<Vec<u8>, HexFault>)
    ensures
        match result {
            Ok(bytes) => hex_reading(encode_utf8(digits@)) == Ok::<Seq<u8>, HexFault>(bytes@),
            Err(fault) => hex_reading(encode_utf8(digits@)) == Err::<Seq<u8>, HexFault>(fault),
        },
{
    hex::decode(digits).map_err(
        |error|
            match error {
                hex::FromHexError::InvalidHexCharacter { c, index } => {
                    HexFault::InvalidCharacter { character: c, index }
                },
                hex::FromHexError::OddLength => HexFault::OddLength,
                hex::FromHexError::InvalidStringLength => HexFault::WrongLength,
            },
    )
}

/// `serde_json::Value`, a JSON value of any kind.
#[verifier::external_type_specification]
#[verifier::external_body]
pub struct ExValue(serde_json::Value);

/// `serde_json::Map`, which holds the members of a JSON object in the order of their keys.
#[verifier::external_type_specification]
#[verifier::external_body]
#[verifier::reject_recursive_types(K)]
#[verifier::reject_recursive_types(V)]
pub struct ExMap<K, V>(serde_json::Map<K, V>);

/// What a `serde_json::Value` holds. Of a number that is not a signed 64-bit integer it keeps no
/// more than that.
pub uninterp spec fn value_tree(value: Value) -> JsonTree;

/// What a `serde_json::Map` holds, in the order in which the map lists it.
pub uninterp spec fn object_members(object: serde_json::Map<String, Value>) -> Seq<
    (Seq<char>, JsonTree),
>;

/// What the values of an array hold.
pub open spec fn value_trees(values: Seq<Value>) -> Seq<JsonTree> {
    values.map_values(|value: Value| value_tree(value))
}

/// What the members that a map lists hold.
pub open spec fn member_trees(members: Seq<(&String, &Value)>) -> Seq<(Seq<char>, JsonTree)> {
    members.map_values(|member: (&String, &Value)| (member.0@, value_tree(*member.1)))
}

/// The outermost layer of a `serde_json::Value`.
pub(crate) enum Layer<'a> {
    Null,
    Bool(bool),
    Number,
    String(&'a String),
    Array(&'a Vec<Value>),
    Object(&'a serde_json::Map<String, Value>),
}

/// Tells the variants of `serde_json::Value` apart.
#[verifier::external_body]
pub(crate) fn layer_of(value: &Value) -> (layer: Layer<'_>)
    ensures
        match layer {
            Layer::Null => value_tree(*value) == JsonTree::Null,
            Layer::Bool(flag) => value_tree(*value) == JsonTree::Bool(flag),
            Layer::Number => value_tree(*value) is Number,
            Layer::String(text) => value_tree(*value) == JsonTree::String(text@),
            Layer::Array(items) => value_tree(*value) == JsonTree::Array(value_trees(items@)),
            Layer::Object(object) => value_tree(*value) == JsonTree::Object(
                object_members(*object),
            ),
        },
{
    match value {
        Value::Null => Layer::Null,
        Value::Bool(flag) => Layer::Bool(*flag),
        Value::Number(_) => Layer::Number,
        Value::String(text) => Layer::String(text),
        Value::Array(items) => Layer::Array(items),
        Value::Object(object) => Layer::Object(object),
    }
}

/// `serde_json::Value::as_i64` gives the value of a number that is a signed 64-bit integer, and
/// `None` for anything else.
pub assume_specification[ serde_json::Value::as_i64 ](value: &Value) -> (number: Option<i64>)
    ensures
        number == (match value_tree(*value) {
            JsonTree::Number(number) => number,
            _ => None,
        }),
;

/// Calls `serde_json::Map::iter`, which lists the members in ascending order of their keys, each
/// key once.
#[verifier::external_body]
pub(crate) fn members_of(object: &serde_json::Map<String, Value>) -> (members: Vec<
    (&String, &Value),
>)
    ensures
        member_trees(members@) == object_members(*object),
        keys_ascend(member_trees(members@)),
{
    object.iter().collect()
}

/// Calls `serde_json::Map::with_capacity`, which makes an empty map.
#[verifier::external_body]
pub(crate) fn new_object(capacity: usize) -> (object: serde_json::Map<String, Value>)
    ensures
        object_members(object) == Seq::<(Seq<char>, JsonTree)>::empty(),
{
    serde_json::Map::with_capacity(capacity)
}

/// Calls `serde_json::Map::insert`, which puts a value under a key, in place of any that is there.
#[verifier::external_body]
pub(crate) fn insert_member(
    object: &mut serde_json::Map<String, Value>,
    key: String,
    value: Value,
)
    ensures
        object_members(*final(object)) == with_member(
            object_members(*old(object)),
            key@,
            value_tree(value),
        ),
{
    object.insert(key, value);
}

/// Makes a `serde_json::Value` of an integer, by `serde_json::Number::from`.
#[verifier::external_body]
pub(crate) fn number_value(number: i64) -> (value: Value)
    ensures
        value_tree(value) == JsonTree::Number(Some(number)),
{
    Value::Number(serde_json::Number::from(number))
}

/// Makes a `serde_json::Value` of a text.
#[verifier::external_body]
pub(crate) fn string_value(text: String) -> (value: Value)
    ensures
        value_tree(value) == JsonTree::String(text@),
{
    Value::String(text)
}

/// Makes a `serde_json::Value` of the items of an array.
#[verifier::external_body]
pub(crate) fn array_value(items: Vec<Value>) -> (value: Value)
    ensures
        value_tree(value) == JsonTree::Array(value_trees(items@)),
{
    Value::Array(items)
}

/// Makes a `serde_json::Value` of the members of an object.
#[verifier::external_body]
pub(crate) fn object_value(object: serde_json::Map<String, Value>) -> (value: Value)
    ensures
        value_tree(value) == JsonTree::Object(object_members(object)),
{
    Value::Object(object)
}

/// What `serde_json::from_slice` makes of bytes: the value that it reads, or the text of its error.
pub uninterp spec fn strict_reading(data: Seq<u8>) -> Result<JsonTree, Seq<char>>;

/// Calls `serde_json::from_slice`, which reads strict JSON. The result is named.
#[verifier::external_body]
pub(crate) fn json_from_slice(data: &[u8]) -> (result: Result<Value, String>)
    ensures
        match result {
            Ok(value) => strict_reading(data@) == Ok::<JsonTree, Seq<char>>(value_tree(value)),
            Err(message) => strict_reading(data@) == Err::<JsonTree, Seq<char>>(message@),
        },
{
    serde_json::from_slice(data).map_err(|error| error.to_string())
}

/// The text that `serde_json::to_vec_pretty` writes for a value.
pub uninterp spec fn pretty_json(tree: JsonTree) -> Seq<char>;

/// Calls `serde_json::to_vec_pretty`, which writes any `serde_json::Value`, as UTF-8. The text is
/// named. An integer is written in decimal, and a string, an array and an object each begin with
/// their opening character. The text does not end in a line feed. With a line feed behind it, it
/// reads back by `serde_json::from_slice` as the value that was written, if arrays and objects
/// stand no deeper in one another than that function goes. The numbers must be signed 64-bit
/// integers, since a tree does not tell other numbers apart.
#[verifier::external_body]
pub(crate) fn to_vec_pretty(value: &Value) -> (result: Result<Vec<u8>, String>)
    requires
        integral(value_tree(*value)),
    ensures
        match result {
            Ok(bytes) => {
                &&& bytes@ == encode_utf8(pretty_json(value_tree(*value)))
                &&& bytes@.len() > 0 && bytes@.last() != NEWLINE
                &&& match value_tree(*value) {
                    JsonTree::Number(Some(number)) => bytes@ == signed_decimal(number as int),
                    JsonTree::String(_) => bytes@[0] == QUOTE,
                    JsonTree::Array(_) => bytes@[0] == BRACKET,
                    JsonTree::Object(_) => bytes@[0] == BRACE,
                    _ => true,
                }
                &&& nests_within(value_tree(*value), 127) ==> strict_reading(bytes@.push(NEWLINE))
                    == Ok::<JsonTree, Seq<char>>(value_tree(*value))
            },
            Err(_) => false,
        },
{
    serde_json::to_vec_pretty(value).map_err(|error| error.to_string())
}

/// What `json5::from_str` makes of a text where it does not run short: the value that it reads, or
/// the text of its error.
pub uninterp spec fn json5_reading(text: Seq<char>) -> Result<JsonTree, Seq<char>>;

/// Whether the text of an error says that the parser ran short: that too little of the stack was
/// left to go deeper into the input, or that the calls which the process allows it were used up.
pub open spec fn ran_short(message: Seq<char>) -> bool {
    "stack limit reached"@.is_suffix_of(message) || "call limit reached"@.is_suffix_of(message)
}

/// Calls `json5::from_str`, whose result is named, except that its parser may run short on any
/// text: how deeply nested a text it reads depends on the stack that the thread has left, and on a
/// limit that is set for the whole process. It then says so in its error. A line that
/// `serde_json::to_vec_pretty` wrote reads back as the value that was written, or runs short,
/// unless a string in it holds a line or paragraph separator: `serde_json` writes these as they
/// are, and `json5` takes them for the end of a line.
#[verifier::external_body]
pub(crate) fn json5_from_str(text: &str) -> (result: Result<Value, String>)
    ensures
        match result {
            Ok(value) => json5_reading(text@) == Ok::<JsonTree, Seq<char>>(value_tree(value)),
            Err(message) => json5_reading(text@) == Err::<JsonTree, Seq<char>>(message@)
                || ran_short(message@),
        },
        forall|tree: JsonTree|
            ordered(tree) && integral(tree) && unbroken(tree) && text@ == (#[trigger] pretty_json(
                tree,
            )).push('\n') ==> (match result {
                Ok(value) => value_tree(value) == tree,
                Err(message) => ran_short(message@),
            }),
{
    json5::from_str(text).map_err(|error| error.to_string())
}

/// Whether a call of `json5::from_str` on this text came back with this value or error. Nothing but
/// such a call shows that one did.
pub closed spec fn reader_returned(text: Seq<char>, read: Result<Value, String>) -> bool {
    exists|input: &str| input@ == text && call_ensures(json5_from_str, (input,), read)
}

/// What came back from the JSON5 reader came back from a call of it on that text.
pub(crate) proof fn law_reader_was_called(text: Seq<char>, read: Result<Value, String>)
    ensures
        reader_returned(text, read) <==> exists|input: &str|
            input@ == text && call_ensures(json5_from_str, (input,), read),
{
}

/// What comes back from the JSON5 reader is what its text reads as, or an error that says that the
/// reader ran short. A line that was written for a value reads as that value.
pub proof fn law_reader_returns_the_reading(text: Seq<char>, read: Result<Value, String>)
    requires
        reader_returned(text, read),
    ensures
        match read {
            Ok(value) => json5_reading(text) == Ok::<JsonTree, Seq<char>>(value_tree(value)),
            Err(message) => json5_reading(text) == Err::<JsonTree, Seq<char>>(message@)
                || ran_short(message@),
        },
        forall|tree: JsonTree|
            ordered(tree) && integral(tree) && unbroken(tree) && text == (#[trigger] pretty_json(
                tree,
            )).push('\n') ==> (match read {
                Ok(value) => value_tree(value) == tree,
                Err(message) => ran_short(message@),
            }),
{
}

/// Reads JSON5 text, and tells that what came back came from the reader.
pub(crate) fn read_json5(text: &str) -> (read: Result<Value, String>)
    ensures
        reader_returned(text@, read),
{
    json5_from_str(text)
}

} // verus!

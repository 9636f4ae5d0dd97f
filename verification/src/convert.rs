//! The conversions between JSON and bencode.

use serde_json::Value;
use vstd::prelude::*;
use vstd::utf8::{decode_utf8, encode_utf8, encode_utf8_decode_utf8, valid_utf8};

use crate::ascii::NEWLINE;
use crate::bencode::{
    bencode_entries, bencode_trees, encode_bencode, encoding, Bencode, BencodeTree,
};
use crate::conversion_laws::{
    canonical, law_bencode_survives_json, law_dictionaries_are_canonical, law_json_is_well_formed,
    law_number_line_is_not_bencode, law_other_input_is_not_bencode, law_output_converts_back,
    lemma_line_text, survives_text,
};
use crate::decimal::signed_decimal;
use crate::fault::{meaning, Fault};
use crate::json::{
    json_members, json_trees, keys_ascend, nests_within, ordered, with_member, Json, JsonTree,
};
use crate::marker::{binary_marker, marker_reading, marker_text, parse_binary_marker};
use crate::outside::{
    array_value, insert_member, json5_reading, json_from_slice, law_reader_returns_the_reading,
    layer_of, member_trees, members_of, new_object, number_value, object_members, object_value, pretty_json,
    ran_short, read_json5, reader_returned, strict_reading, string_value, text_from_utf8, to_vec_pretty, utf8_error_text,
    value_tree, value_trees, Layer,
};
use crate::parser::{value_at, Parser};
use crate::value_laws::{
    last_becomes, law_arrays_become_lists, law_dictionaries_become_objects,
    law_lists_become_arrays, law_objects_become_dictionaries,
};

verus! {

/// The bencode tree that a JSON tree converts to. Booleans become `0` and `1`, strings become
/// byte strings, arrays become lists and objects become dictionaries.
pub open spec fn bencode_of(tree: JsonTree) -> Result<BencodeTree, Fault<Seq<char>>>
    decreases tree,
{
    match tree {
        JsonTree::Null => Err(Fault::NullValue),
        JsonTree::Bool(flag) => Ok(
            BencodeTree::Integer(
                if flag {
                    1
                } else {
                    0
                },
            ),
        ),
        JsonTree::Number(Some(number)) => Ok(BencodeTree::Integer(number)),
        JsonTree::Number(None) => Err(Fault::NotAnInteger),
        JsonTree::String(text) => match marker_reading(text) {
            Ok(Some(bytes)) => Ok(BencodeTree::Bytes(bytes)),
            Ok(None) => Ok(BencodeTree::Bytes(encode_utf8(text))),
            Err(fault) => Err(fault),
        },
        JsonTree::Array(items) => match bencode_values_of(items) {
            Ok(values) => Ok(BencodeTree::List(values)),
            Err(fault) => Err(fault),
        },
        JsonTree::Object(members) => match bencode_entries_of(members) {
            Ok(entries) => Ok(BencodeTree::Dict(entries)),
            Err(fault) => Err(fault),
        },
    }
}

/// The bencode trees of the items of an array, or the fault of the first item that has none.
pub open spec fn bencode_values_of(items: Seq<JsonTree>) -> Result<
    Seq<BencodeTree>,
    Fault<Seq<char>>,
>
    decreases items,
{
    if items.len() == 0 {
        Ok(Seq::empty())
    } else {
        match bencode_of(items[0]) {
            Err(fault) => Err(fault),
            Ok(value) => match bencode_values_of(items.drop_first()) {
                Err(fault) => Err(fault),
                Ok(values) => Ok(seq![value] + values),
            },
        }
    }
}

/// The entries of the dictionary that the members of an object convert to, in the same order, or
/// the fault of the first member that has none.
pub open spec fn bencode_entries_of(members: Seq<(Seq<char>, JsonTree)>) -> Result<
    Seq<(Seq<u8>, BencodeTree)>,
    Fault<Seq<char>>,
>
    decreases members,
{
    if members.len() == 0 {
        Ok(Seq::empty())
    } else {
        match bencode_of(members[0].1) {
            Err(fault) => Err(fault),
            Ok(value) => match bencode_entries_of(members.drop_first()) {
                Err(fault) => Err(fault),
                Ok(entries) => Ok(seq![(encode_utf8(members[0].0), value)] + entries),
            },
        }
    }
}

/// The text that stands for a byte string: the text that it encodes, or else a binary marker.
pub open spec fn bytes_text(bytes: Seq<u8>) -> Seq<char> {
    if valid_utf8(bytes) {
        decode_utf8(bytes)
    } else {
        marker_text(bytes)
    }
}

/// The JSON tree that a bencode tree converts to.
pub open spec fn json_of(tree: BencodeTree) -> Result<JsonTree, Fault<Seq<char>>>
    decreases tree,
{
    match tree {
        BencodeTree::Integer(number) => Ok(JsonTree::Number(Some(number))),
        BencodeTree::Bytes(bytes) => Ok(JsonTree::String(bytes_text(bytes))),
        BencodeTree::List(values) => match json_items_of(values) {
            Ok(items) => Ok(JsonTree::Array(items)),
            Err(fault) => Err(fault),
        },
        BencodeTree::Dict(entries) => match json_members_of(Seq::empty(), entries) {
            Ok(members) => Ok(JsonTree::Object(members)),
            Err(fault) => Err(fault),
        },
    }
}

/// The JSON trees of the values of a list.
pub open spec fn json_items_of(values: Seq<BencodeTree>) -> Result<Seq<JsonTree>, Fault<Seq<char>>>
    decreases values,
{
    if values.len() == 0 {
        Ok(Seq::empty())
    } else {
        match json_of(values[0]) {
            Err(fault) => Err(fault),
            Ok(item) => match json_items_of(values.drop_first()) {
                Err(fault) => Err(fault),
                Ok(items) => Ok(seq![item] + items),
            },
        }
    }
}

/// The members of an object after the entries of a dictionary were put into it, one after the
/// other.
pub open spec fn json_members_of(
    members: Seq<(Seq<char>, JsonTree)>,
    entries: Seq<(Seq<u8>, BencodeTree)>,
) -> Result<Seq<(Seq<char>, JsonTree)>, Fault<Seq<char>>>
    decreases entries,
{
    if entries.len() == 0 {
        Ok(members)
    } else if !valid_utf8(entries[0].0) {
        Err(Fault::KeyNotUtf8)
    } else {
        match json_of(entries[0].1) {
            Err(fault) => Err(fault),
            Ok(value) => json_members_of(
                with_member(members, decode_utf8(entries[0].0), value),
                entries.drop_first(),
            ),
        }
    }
}

/// Takes over the parts of a `serde_json` value that the conversion to bencode reads.
pub fn json_from_value(value: &Value) -> (json: Json)
    ensures
        json@ == value_tree(*value),
        ordered(json@),
    decreases value_tree(*value),
{
    match layer_of(value) {
        Layer::Null => Json::Null,
        Layer::Bool(flag) => Json::Bool(flag),
        Layer::Number => Json::Number(value.as_i64()),
        Layer::String(text) => Json::String(text.clone()),
        Layer::Array(values) => {
            let ghost trees = value_trees(values@);
            let mut items: Vec<Json> = Vec::new();
            let mut i: usize = 0;
            while i < values.len()
                invariant
                    i <= values@.len(),
                    trees == value_trees(values@),
                    value_tree(*value) == JsonTree::Array(trees),
                    json_trees(items@) == trees.take(i as int),
                    forall|j: int| 0 <= j < i ==> ordered(#[trigger] trees[j]),
                decreases values@.len() - i,
            {
                let ghost before = items@;
                assert(trees[i as int] == value_tree(values@[i as int]));
                assert(decreases_to!(value_tree(*value)->Array_0 => trees[i as int]));
                let item = json_from_value(&values[i]);
                items.push(item);
                assert(json_trees(items@) =~= json_trees(before).push(item@));
                i += 1;
            }
            assert(trees.take(i as int) =~= trees);
            Json::Array(items)
        },
        Layer::Object(object) => {
            let listed = members_of(object);
            let ghost trees = member_trees(listed@);
            let mut members: Vec<(String, Json)> = Vec::new();
            let mut i: usize = 0;
            while i < listed.len()
                invariant
                    i <= listed@.len(),
                    trees == member_trees(listed@),
                    value_tree(*value) == JsonTree::Object(trees),
                    json_members(members@) == trees.take(i as int),
                    forall|j: int| 0 <= j < i ==> ordered((#[trigger] trees[j]).1),
                decreases listed@.len() - i,
            {
                let ghost before = members@;
                assert(trees[i as int] == (
                    listed@[i as int].0@,
                    value_tree(*listed@[i as int].1),
                ));
                assert(decreases_to!(value_tree(*value)->Object_0 => trees[i as int]));
                assert(decreases_to!(trees[i as int] => trees[i as int].1));
                let member = json_from_value(listed[i].1);
                let key = listed[i].0.clone();
                members.push((key, member));
                assert(json_members(members@) =~= json_members(before).push((key@, member@)));
                i += 1;
            }
            assert(trees.take(i as int) =~= trees);
            Json::Object(members)
        },
    }
}

/// Converts a JSON value into its corresponding bencode representation.
pub fn json_to_bencode_value(value: &Json) -> (result: Result<Bencode, Fault<String>>)
    ensures
        meaning(result) == bencode_of(value@),
        value matches Json::Bool(flag) ==> (result matches Ok(Bencode::Integer(number)) && number
            == if *flag {
            1int
        } else {
            0
        }),
        value matches Json::Array(items) ==> (result matches Ok(converted) ==> (
        converted matches Bencode::List(values) && values@.len() == items@.len() && forall|i: int|
            0 <= i < items@.len() ==> bencode_of(items@[i]@) == Ok::<BencodeTree, Fault<Seq<char>>>(
                (#[trigger] values@[i])@,
            ))),
        value matches Json::Object(members) ==> (result matches Ok(converted) ==> (
        converted matches Bencode::Dict(entries) && entries@.len() == members@.len() && forall|
            i: int,
        |
            0 <= i < members@.len() ==> (#[trigger] entries@[i]).0@ == encode_utf8(members@[i].0@)
                && bencode_of(members@[i].1@) == Ok::<BencodeTree, Fault<Seq<char>>>(
                entries@[i].1@,
            ))),
    decreases value,
{
    match value {
        // Bencode does not define a null value.
        Json::Null => Err(Fault::NullValue),
        // Represent booleans as the conventional integer values 0 and 1.
        Json::Bool(flag) => Ok(
            Bencode::Integer(
                if *flag {
                    1
                } else {
                    0
                },
            ),
        ),
        // Bencode integers are signed 64-bit integers.
        Json::Number(number) => match number {
            Some(number) => Ok(Bencode::Integer(*number)),
            None => Err(Fault::NotAnInteger),
        },
        // Strings using the special binary marker are decoded into raw bytes instead of being
        // encoded as UTF-8 text.
        Json::String(text) => match parse_binary_marker(text.as_str())? {
            Some(bytes) => Ok(Bencode::Bytes(bytes)),
            None => Ok(Bencode::Bytes(vstd::slice::slice_to_vec(text.as_str().as_bytes()))),
        },
        Json::Array(items) => {
            let ghost trees = json_trees(items@);
            let mut values: Vec<Bencode> = Vec::new();
            let mut i: usize = 0;
            assert(trees.skip(0) =~= trees);
            while i < items.len()
                invariant
                    i <= items@.len(),
                    *value == Json::Array(*items),
                    trees == json_trees(items@),
                    bencode_values_of(trees) == (match bencode_values_of(trees.skip(i as int)) {
                        Ok(rest) => Ok(bencode_trees(values@) + rest),
                        Err(fault) => Err(fault),
                    }),
                decreases items@.len() - i,
            {
                let ghost before = values@;
                assert(trees.skip(i as int).drop_first() =~= trees.skip(i + 1));
                assert(decreases_to!(value->Array_0 => items@[i as int]));
                let converted = json_to_bencode_value(&items[i])?;
                values.push(converted);
                proof {
                    assert(bencode_trees(values@) =~= bencode_trees(before).push(converted@));
                    if let Ok(rest) = bencode_values_of(trees.skip(i + 1)) {
                        assert(bencode_trees(before) + (seq![converted@] + rest) =~= bencode_trees(
                            values@,
                        ) + rest);
                    }
                }
                i += 1;
            }
            proof {
                assert(bencode_trees(values@) + Seq::empty() =~= bencode_trees(values@));
                law_arrays_become_lists(trees);
                assert forall|i: int| 0 <= i < items@.len() implies bencode_of(items@[i]@) == Ok::<
                    BencodeTree,
                    Fault<Seq<char>>,
                >((#[trigger] values@[i])@) by {
                    assert(bencode_trees(values@)[i] == values@[i]@);
                    assert(trees[i] == items@[i]@);
                }
            }
            Ok(Bencode::List(values))
        },
        Json::Object(members) => {
            let ghost trees = json_members(members@);
            let mut entries: Vec<(Vec<u8>, Bencode)> = Vec::new();
            let mut i: usize = 0;
            assert(trees.skip(0) =~= trees);
            while i < members.len()
                invariant
                    i <= members@.len(),
                    *value == Json::Object(*members),
                    trees == json_members(members@),
                    bencode_entries_of(trees) == (match bencode_entries_of(trees.skip(i as int)) {
                        Ok(rest) => Ok(bencode_entries(entries@) + rest),
                        Err(fault) => Err(fault),
                    }),
                decreases members@.len() - i,
            {
                let ghost before = entries@;
                assert(trees.skip(i as int).drop_first() =~= trees.skip(i + 1));
                assert(decreases_to!(value->Object_0 => members@[i as int]));
                let key = vstd::slice::slice_to_vec(members[i].0.as_str().as_bytes());
                let converted = json_to_bencode_value(&members[i].1)?;
                entries.push((key, converted));
                proof {
                    assert(bencode_entries(entries@) =~= bencode_entries(before).push(
                        (key@, converted@),
                    ));
                    if let Ok(rest) = bencode_entries_of(trees.skip(i + 1)) {
                        assert(bencode_entries(before) + (seq![(key@, converted@)] + rest)
                            =~= bencode_entries(entries@) + rest);
                    }
                }
                i += 1;
            }
            proof {
                assert(bencode_entries(entries@) + Seq::empty() =~= bencode_entries(entries@));
                law_objects_become_dictionaries(trees);
                assert forall|i: int| 0 <= i < members@.len() implies (#[trigger] entries@[i]).0@
                    == encode_utf8(members@[i].0@) && bencode_of(members@[i].1@) == Ok::<
                    BencodeTree,
                    Fault<Seq<char>>,
                >(entries@[i].1@) by {
                    assert(bencode_entries(entries@)[i] == (entries@[i].0@, entries@[i].1@));
                    assert(trees[i] == (members@[i].0@, members@[i].1@));
                }
            }
            Ok(Bencode::Dict(entries))
        },
    }
}

/// The text that stands for a byte string in JSON: the text that it encodes, or else a binary
/// marker.
fn text_of_bytes(bytes: &[u8]) -> (text: String)
    ensures
        text@ == bytes_text(bytes@),
{
    match text_from_utf8(bytes) {
        // Valid UTF-8 byte strings can be represented directly as JSON strings.
        Ok(text) => {
            proof {
                encode_utf8_decode_utf8(text@);
            }
            text.to_owned()
        },
        // Preserve non-UTF-8 bytes using the binary marker format.
        Err(_) => binary_marker(bytes),
    }
}

/// Converts a bencode value into a JSON value.
pub fn bencode_to_json_value(value: &Bencode) -> (result: Result<Value, Fault<String>>)
    ensures
        match result {
            Ok(json) => json_of(value@) == Ok::<JsonTree, Fault<Seq<char>>>(value_tree(json)),
            Err(fault) => json_of(value@) == Err::<JsonTree, Fault<Seq<char>>>(fault@),
        },
        value matches Bencode::List(values) ==> (result matches Ok(json) ==> (value_tree(
            json,
        ) matches JsonTree::Array(items) && items.len() == values@.len() && forall|i: int|
            0 <= i < values@.len() ==> json_of(values@[i]@) == Ok::<JsonTree, Fault<Seq<char>>>(
                #[trigger] items[i],
            ))),
        value matches Bencode::Dict(entries) ==> (result matches Ok(json) ==> (value_tree(
            json,
        ) matches JsonTree::Object(members) && keys_ascend(members) && forall|
            key: Seq<char>,
            member: JsonTree,
        | #[trigger]
            members.contains((key, member)) <==> last_becomes(
                bencode_entries(entries@),
                key,
                member,
            ))),
    decreases value,
{
    match value {
        Bencode::Integer(number) => Ok(number_value(*number)),
        Bencode::Bytes(bytes) => Ok(string_value(text_of_bytes(bytes.as_slice()))),
        Bencode::List(values) => {
            let ghost trees = bencode_trees(values@);
            let mut items: Vec<Value> = Vec::new();
            let mut i: usize = 0;
            assert(trees.skip(0) =~= trees);
            while i < values.len()
                invariant
                    i <= values@.len(),
                    *value == Bencode::List(*values),
                    trees == bencode_trees(values@),
                    json_items_of(trees) == (match json_items_of(trees.skip(i as int)) {
                        Ok(rest) => Ok(value_trees(items@) + rest),
                        Err(fault) => Err(fault),
                    }),
                decreases values@.len() - i,
            {
                let ghost before = items@;
                assert(trees.skip(i as int).drop_first() =~= trees.skip(i + 1));
                assert(decreases_to!(value->List_0 => values@[i as int]));
                let item = bencode_to_json_value(&values[i])?;
                items.push(item);
                proof {
                    assert(value_trees(items@) =~= value_trees(before).push(value_tree(item)));
                    if let Ok(rest) = json_items_of(trees.skip(i + 1)) {
                        assert(value_trees(before) + (seq![value_tree(item)] + rest)
                            =~= value_trees(items@) + rest);
                    }
                }
                i += 1;
            }
            proof {
                assert(value_trees(items@) + Seq::empty() =~= value_trees(items@));
                law_lists_become_arrays(trees);
                assert forall|i: int| 0 <= i < values@.len() implies json_of(values@[i]@) == Ok::<
                    JsonTree,
                    Fault<Seq<char>>,
                >(#[trigger] value_trees(items@)[i]) by {
                    assert(trees[i] == values@[i]@);
                }
            }
            Ok(array_value(items))
        },
        Bencode::Dict(entries) => {
            let ghost trees = bencode_entries(entries@);
            let mut object = new_object(entries.len());
            let mut i: usize = 0;
            assert(trees.skip(0) =~= trees);
            while i < entries.len()
                invariant
                    i <= entries@.len(),
                    *value == Bencode::Dict(*entries),
                    trees == bencode_entries(entries@),
                    json_members_of(Seq::empty(), trees) == json_members_of(
                        object_members(object),
                        trees.skip(i as int),
                    ),
                decreases entries@.len() - i,
            {
                assert(trees.skip(i as int).drop_first() =~= trees.skip(i + 1));
                assert(decreases_to!(value->Dict_0 => entries@[i as int]));
                let key = match text_from_utf8(entries[i].0.as_slice()) {
                    Ok(key) => key,
                    Err(_) => {
                        return Err(Fault::KeyNotUtf8);
                    },
                };
                proof {
                    encode_utf8_decode_utf8(key@);
                }
                let member = bencode_to_json_value(&entries[i].1)?;
                insert_member(&mut object, key.to_owned(), member);
                i += 1;
            }
            proof {
                law_dictionaries_become_objects(trees);
            }
            Ok(object_value(object))
        },
    }
}

/// The JSON text of a bencode tree: pretty-printed, with a line feed at the end.
pub open spec fn json_text(tree: BencodeTree) -> Result<Seq<u8>, Fault<Seq<char>>> {
    match json_of(tree) {
        Err(fault) => Err(fault),
        Ok(json) => Ok(encode_utf8(pretty_json(json)).push(NEWLINE)),
    }
}

/// The bencode encoding of a JSON tree.
pub open spec fn bencode_text(tree: JsonTree) -> Result<Seq<u8>, Fault<Seq<char>>> {
    match bencode_of(tree) {
        Ok(bencode) => Ok(encoding(bencode)),
        Err(fault) => Err(fault),
    }
}

/// What comes of reading JSON5 text: the bencode encoding of what was read, or a fault that takes
/// up the text of the error.
pub open spec fn encoded_reading(read: Result<JsonTree, Seq<char>>) -> Result<
    Seq<u8>,
    Fault<Seq<char>>,
> {
    match read {
        Ok(json) => bencode_text(json),
        Err(message) => Err(Fault::InvalidJson(message)),
    }
}

/// What JSON5 input converts to, where its reader does not run short.
pub open spec fn converted_json(data: Seq<u8>) -> Result<Seq<u8>, Fault<Seq<char>>> {
    if !valid_utf8(data) {
        Err(Fault::NotUtf8(utf8_error_text(data)))
    } else {
        encoded_reading(json5_reading(decode_utf8(data)))
    }
}

/// Whether the conversion of JSON5 input failed because the reader, called on this input, came back
/// with the error that it ran short.
pub open spec fn gave_up<T>(data: Seq<u8>, result: Result<T, Fault<String>>) -> bool {
    &&& valid_utf8(data)
    &&& result matches Err(Fault::InvalidJson(message))
    &&& ran_short(message@)
    &&& exists|read: Result<Value, String>| #[trigger]
        reader_returned(decode_utf8(data), read) && (read matches Err(said) && said@ == message@)
}

/// What bencode input converts to.
pub open spec fn converted_bencode(data: Seq<u8>) -> Result<Seq<u8>, Fault<Seq<char>>> {
    match value_at(data, 0) {
        (Err(fault), _) => Err(fault),
        (Ok(tree), end) => if end == data.len() {
            json_text(tree)
        } else {
            Err(Fault::TrailingBytes)
        },
    }
}

/// Whether the whole of `data` is one bencode value.
pub open spec fn is_bencode(data: Seq<u8>) -> bool {
    value_at(data, 0).0 is Ok && value_at(data, 0).1 == data.len()
}

/// Whether `output` is written as the JSON text of a bencode tree is written: it ends in one line
/// feed and no more, an integer is written in decimal, it is not taken for bencode, and read as
/// strict JSON it gives back the JSON tree, if arrays and objects stand no deeper in one another
/// than the reader goes.
pub open spec fn is_json_line(tree: BencodeTree, output: Seq<u8>) -> bool {
    &&& output.len() >= 2 && output.last() == NEWLINE && output[output.len() - 2] != NEWLINE
    &&& tree matches BencodeTree::Integer(number) ==> output == signed_decimal(number as int).push(
        NEWLINE,
    )
    &&& !is_bencode(output)
    &&& json_of(tree) matches Ok(json) && (nests_within(json, 127) ==> strict_reading(output) == Ok::<
        JsonTree,
        Seq<char>,
    >(json))
}

/// Whether `output` is bencode as JSON converts to it: it is taken for bencode, and its
/// dictionaries list their keys in order.
pub open spec fn is_canonical_bencode(output: Seq<u8>) -> bool {
    &&& is_bencode(output)
    &&& exists|tree: BencodeTree| canonical(tree) && output == #[trigger] encoding(tree)
}

/// Reads strict JSON, the format that [`bencode_to_json`] writes.
pub fn read_json(data: &[u8]) -> (result: Result<Json, Fault<String>>)
    ensures
        meaning(result) == (match strict_reading(data@) {
            Ok(json) => Ok::<JsonTree, Fault<Seq<char>>>(json),
            Err(message) => Err(Fault::InvalidJson(message)),
        }),
        result matches Ok(json) ==> ordered(json@),
{
    match json_from_slice(data) {
        Ok(value) => Ok(json_from_value(&value)),
        Err(message) => Err(Fault::InvalidJson(message)),
    }
}

/// Ends a text with a line feed.
pub fn end_line(text: Vec<u8>) -> (line: Vec<u8>)
    ensures
        line@ == text@.push(NEWLINE),
{
    let mut line = text;
    line.push(NEWLINE);
    line
}

/// Converts a bencode value to pretty-printed JSON bytes.
///
/// They end in one line feed, are never taken for bencode, and read back as the JSON value.
pub fn bencode_to_json_value_bytes(value: &Bencode) -> (result: Result<Vec<u8>, Fault<String>>)
    ensures
        meaning(result) == json_text(value@),
        result matches Ok(output) ==> is_json_line(value@, output@),
        value@ matches BencodeTree::Integer(number) ==> (result matches Ok(output) && output@
            == signed_decimal(number as int).push(NEWLINE)),
{
    let json = bencode_to_json_value(value)?;
    proof {
        law_json_is_well_formed(value@);
    }
    match to_vec_pretty(&json) {
        Ok(text) => {
            let line = end_line(text);
            proof {
                match value {
                    Bencode::Integer(number) => law_number_line_is_not_bencode(*number as int),
                    _ => law_other_input_is_not_bencode(line@),
                }
            }
            Ok(line)
        },
        Err(message) => Err(Fault::UnwritableJson(message)),
    }
}

/// Converts a JSON value into bencode bytes.
pub fn json_to_bencode_bytes(json: &Json) -> (result: Result<Vec<u8>, Fault<String>>)
    ensures
        meaning(result) == bencode_text(json@),
{
    let bencode = json_to_bencode_value(json)?;
    let mut output: Vec<u8> = Vec::new();
    encode_bencode(&bencode, &mut output)?;
    assert(output@ =~= encoding(bencode@));
    Ok(output)
}

/// Converts what was read of JSON5 text, a value or else the text of an error, into bencode bytes.
pub fn encode_read(read: Result<Json, String>) -> (result: Result<Vec<u8>, Fault<String>>)
    ensures
        meaning(result) == encoded_reading(
            match read {
                Ok(json) => Ok(json@),
                Err(message) => Err(message@),
            },
        ),
{
    match read {
        Ok(json) => json_to_bencode_bytes(&json),
        Err(message) => Err(Fault::InvalidJson(message)),
    }
}

/// Converts JSON5 input into bencode bytes.
///
/// The output is taken for bencode, and its dictionaries list their keys in order. Input that
/// [`bencode_to_json`] made of a value converts back to the encoding of that value, if the value
/// can go through JSON text unchanged.
///
/// Deeply nested input can be refused because its reader ran short: how deep it may be depends on
/// the stack that the thread has left.
pub fn json_to_bencode(data: &[u8]) -> (result: Result<Vec<u8>, Fault<String>>)
    ensures
        meaning(result) == converted_json(data@) || gave_up(data@, result),
        !valid_utf8(data@) ==> (result matches Err(Fault::NotUtf8(message)) && message@
            == utf8_error_text(data@)),
        valid_utf8(data@) ==> exists|read: Result<Value, String>| #[trigger]
            reader_returned(decode_utf8(data@), read) && meaning(result) == (match read {
                Ok(value) => match bencode_of(value_tree(value)) {
                    Ok(tree) => Ok(encoding(tree)),
                    Err(fault) => Err(fault),
                },
                Err(message) => Err(Fault::InvalidJson(message@)),
            }),
        result matches Ok(output) ==> is_canonical_bencode(output@),
        forall|tree: BencodeTree|
            #![trigger json_text(tree)]
            survives_text(tree) && json_text(tree) == Ok::<Seq<u8>, Fault<Seq<char>>>(
                data@,
            ) ==> meaning(result) == Ok::<Seq<u8>, Fault<Seq<char>>>(encoding(tree)) || gave_up(
                data@,
                result,
            ),
{
    let text = match text_from_utf8(data) {
        Ok(text) => text,
        Err(message) => {
            proof {
                assert forall|tree: BencodeTree|
                    survives_text(tree) implies #[trigger] json_text(tree) != Ok::<
                    Seq<u8>,
                    Fault<Seq<char>>,
                >(data@) by {
                    if let Ok(json) = json_of(tree) {
                        lemma_line_text(pretty_json(json));
                    }
                }
            }
            return Err(Fault::NotUtf8(message));
        },
    };
    proof {
        encode_utf8_decode_utf8(text@);
    }
    let read = read_json5(text);
    proof {
        law_reader_returns_the_reading(text@, read);
        assert forall|tree: BencodeTree|
            survives_text(tree) && #[trigger] json_text(tree) == Ok::<Seq<u8>, Fault<Seq<char>>>(
                data@,
            ) implies (match read {
            Ok(value) => bencode_text(value_tree(value)) == Ok::<Seq<u8>, Fault<Seq<char>>>(
                encoding(tree),
            ),
            Err(message) => ran_short(message@),
        }) by {
            let json = json_of(tree)->Ok_0;
            law_json_is_well_formed(tree);
            law_bencode_survives_json(tree);
            lemma_line_text(pretty_json(json));
            assert(text@ == pretty_json(json).push('\n'));
        }
    }
    match read {
        Ok(value) => {
            let json = json_from_value(&value);
            proof {
                law_dictionaries_are_canonical(json@);
                law_output_converts_back(data@);
            }
            let output = encode_read(Ok(json));
            assert(output matches Ok(bytes) ==> bytes@.len() == bytes.len());
            output
        },
        Err(message) => encode_read(Err(message)),
    }
}

/// Converts bencode input into pretty-printed JSON bytes.
///
/// They end in one line feed, are never taken for bencode, and read back as the JSON value.
pub fn bencode_to_json(data: &[u8]) -> (result: Result<Vec<u8>, Fault<String>>)
    ensures
        meaning(result) == converted_bencode(data@),
        result matches Ok(output) ==> (value_at(data@, 0).0 matches Ok(tree) && is_json_line(
            tree,
            output@,
        )),
        is_bencode(data@) ==> (value_at(data@, 0).0 matches Ok(BencodeTree::Integer(number)) ==> (
        result matches Ok(output) && output@ == signed_decimal(number as int).push(NEWLINE))),
{
    let mut parser = Parser::new(data);
    let value = parser.parse_value()?;
    // A valid top-level bencode value must consume all input bytes.
    if !parser.is_at_end() {
        return Err(Fault::TrailingBytes);
    }
    bencode_to_json_value_bytes(&value)
}

/// What input was found to be.
#[derive(Debug, PartialEq, Eq)]
pub enum Detected {
    /// Bencode, and the value that it encodes.
    Bencode(Bencode),
    /// Anything else, which is taken for JSON5.
    Json,
}

/// Attempts to parse the input as bencode.
///
/// If parsing succeeds and consumes the entire input, the input is treated as bencode. Otherwise,
/// it is treated as JSON5.
pub fn detect(data: &[u8]) -> (detected: Detected)
    ensures
        match detected {
            Detected::Bencode(value) => value_at(data@, 0) == (
                Ok::<BencodeTree, Fault<Seq<char>>>(value@),
                data@.len() as int,
            ),
            Detected::Json => !is_bencode(data@),
        },
{
    let mut parser = Parser::new(data);
    match parser.parse_value() {
        Ok(value) => if parser.is_at_end() {
            Detected::Bencode(value)
        } else {
            Detected::Json
        },
        Err(_) => Detected::Json,
    }
}

/// Converts input to the other format, and names the format that it was converted to. JSON5 can be
/// refused because its reader ran short.
pub fn convert_detected(detected: &Detected, data: &[u8]) -> (result: Result<
    (&'static str, Vec<u8>),
    Fault<String>,
>)
    ensures
        match (*detected, result) {
            (Detected::Bencode(value), Ok((format, output))) => format@ == "json"@ && json_text(
                value@,
            ) == Ok::<Seq<u8>, Fault<Seq<char>>>(output@) && is_json_line(value@, output@),
            (Detected::Bencode(value), Err(fault)) => json_text(value@) == Err::<
                Seq<u8>,
                Fault<Seq<char>>,
            >(fault@),
            (Detected::Json, Ok((format, output))) => format@ == "bencode"@ && converted_json(data@)
                == Ok::<Seq<u8>, Fault<Seq<char>>>(output@) && is_canonical_bencode(output@),
            (Detected::Json, Err(fault)) => converted_json(data@) == Err::<
                Seq<u8>,
                Fault<Seq<char>>,
            >(fault@) || gave_up(data@, result),
        },
        result matches Ok((_, output)) ==> (is_bencode(output@) <==> *detected is Json),
        *detected is Json ==> forall|tree: BencodeTree|
            survives_text(tree) && #[trigger] json_text(tree) == Ok::<Seq<u8>, Fault<Seq<char>>>(
                data@,
            ) ==> (result matches Ok((_, output)) && output@ == encoding(tree)) || gave_up(
                data@,
                result,
            ),
{
    match detected {
        Detected::Bencode(value) => Ok(("json", bencode_to_json_value_bytes(value)?)),
        Detected::Json => Ok(("bencode", json_to_bencode(data)?)),
    }
}

/// Converts bencode input to JSON, and any other input, which is treated as JSON5, to bencode. The
/// result names the format of the output.
///
/// The output is taken for the other format than the input, so that it converts in the other
/// direction. JSON5 can be refused because its reader ran short.
pub fn sniff_and_convert(data: &[u8]) -> (result: Result<(&'static str, Vec<u8>), Fault<String>>)
    ensures
        match result {
            Ok((format, output)) => if is_bencode(data@) {
                &&& format@ == "json"@
                &&& converted_bencode(data@) == Ok::<Seq<u8>, Fault<Seq<char>>>(output@)
                &&& value_at(data@, 0).0 matches Ok(tree) && is_json_line(tree, output@)
            } else {
                &&& format@ == "bencode"@
                &&& converted_json(data@) == Ok::<Seq<u8>, Fault<Seq<char>>>(output@)
                &&& is_canonical_bencode(output@)
            },
            Err(fault) => if is_bencode(data@) {
                converted_bencode(data@) == Err::<Seq<u8>, Fault<Seq<char>>>(fault@)
            } else {
                converted_json(data@) == Err::<Seq<u8>, Fault<Seq<char>>>(fault@) || gave_up(
                    data@,
                    result,
                )
            },
        },
        result matches Ok((_, output)) ==> (is_bencode(output@) <==> !is_bencode(data@)),
        !is_bencode(data@) ==> forall|tree: BencodeTree|
            survives_text(tree) && #[trigger] json_text(tree) == Ok::<Seq<u8>, Fault<Seq<char>>>(
                data@,
            ) ==> (result matches Ok((_, output)) && output@ == encoding(tree)) || gave_up(
                data@,
                result,
            ),
{
    convert_detected(&detect(data), data)
}

} // verus!

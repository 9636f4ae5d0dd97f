//! What holds of the conversions between JSON and bencode.

use serde_json::Value;
use vstd::prelude::*;
use vstd::utf8::{
    decode_utf8, decode_utf8_encode_utf8, encode_utf8, encode_utf8_decode_utf8,
    encode_utf8_valid_utf8, is_ascii_chars, is_ascii_chars_encode_utf8, valid_utf8,
};

use crate::ascii::{LOWER_D, LOWER_I, LOWER_L, MINUS, NEWLINE};
use crate::bencode::{encoding, BencodeTree};
use crate::convert::{
    bencode_entries_of, bencode_of, bencode_values_of, bytes_text, converted_bencode,
    converted_json, encoded_reading, is_bencode, json_items_of, json_members_of, json_of, json_text,
    json_to_bencode,
};
use crate::decimal::{decimal, is_digit, lemma_decimal_digits, signed_decimal};
use crate::fault::{meaning, Fault};
use crate::hexadecimal::{hex_text, lemma_hex_reads_back, lemma_hex_text_digits};
use crate::json::{
    bytes_before, integral, keys_ascend, lemma_members_before, lemma_not_before_itself,
    lemma_with_last_member, lemma_with_member_ascends, nests_within, ordered, text_before,
    unbroken, with_member, JsonTree,
};
use crate::marker::{
    marker_inner, marker_prefix, marker_reading, marker_text, trimmed, trimmed_start,
};
use crate::outside::{
    json5_reading, pretty_json, reader_returned, utf8_error_text, value_tree,
};
use crate::parser::value_at;
use crate::reading_laws::{law_encoding_reads_back, lemma_digits_end_found};
use crate::value_laws::law_faults_of_json_values;

verus! {

/// The marker that is written for bytes stands for those bytes.
pub proof fn law_marker_reads_back(bytes: Seq<u8>)
    ensures
        marker_reading(marker_text(bytes)) == Ok::<Option<Seq<u8>>, Fault<Seq<char>>>(Some(bytes)),
{
    let text = marker_text(bytes);
    let digits = hex_text(bytes);
    let inner = seq![' '] + digits;
    lemma_hex_text_digits(bytes);
    assert(text.take(8) =~= marker_prefix());
    assert(text.subrange(8, text.len() - 1) =~= inner);
    assert(inner.drop_first() =~= digits);
    reveal_with_fuel(trimmed_start, 2);
    assert(trimmed_start(inner) == digits);
    assert(trimmed(inner) == digits);
    assert(is_ascii_chars(digits));
    is_ascii_chars_encode_utf8(digits);
    assert(encode_utf8(digits) =~= digits.map_values(|digit: char| digit as u8));
    lemma_hex_reads_back(bytes, encode_utf8(digits));
}

/// Whether the tree can go through JSON unchanged: no text in it has the form of a binary marker,
/// the keys of its dictionaries are texts, and they ascend.
pub open spec fn faithful(tree: BencodeTree) -> bool
    decreases tree,
{
    match tree {
        BencodeTree::Integer(_) => true,
        BencodeTree::Bytes(bytes) => valid_utf8(bytes) ==> marker_inner(decode_utf8(bytes)) is None,
        BencodeTree::List(values) => forall|i: int|
            0 <= i < values.len() ==> faithful(#[trigger] values[i]),
        BencodeTree::Dict(entries) => {
            &&& forall|i: int|
                0 <= i < entries.len() ==> valid_utf8((#[trigger] entries[i]).0) && faithful(
                    entries[i].1,
                )
            &&& entries_ascend(entries)
        },
    }
}

/// Whether each key comes before every later one, so that none occurs twice.
pub open spec fn entries_ascend(entries: Seq<(Seq<u8>, BencodeTree)>) -> bool {
    forall|i: int, j: int|
        0 <= i < j < entries.len() ==> bytes_before(
            #[trigger] entries[i].0,
            #[trigger] entries[j].0,
        )
}

/// A dictionary whose keys are in order has no key twice.
pub proof fn law_ascending_keys_differ(entries: Seq<(Seq<u8>, BencodeTree)>, first: int, second: int)
    requires
        entries_ascend(entries),
        0 <= first < entries.len(),
        0 <= second < entries.len(),
        first != second,
    ensures
        entries[first].0 != entries[second].0,
{
    lemma_not_before_itself(entries[first].0);
}

/// A byte string goes through JSON unchanged, unless it is a text in the form of a marker.
proof fn lemma_bytes_survive(bytes: Seq<u8>)
    requires
        faithful(BencodeTree::Bytes(bytes)),
    ensures
        bencode_of(JsonTree::String(bytes_text(bytes))) == Ok::<BencodeTree, Fault<Seq<char>>>(
            BencodeTree::Bytes(bytes),
        ),
{
    if valid_utf8(bytes) {
        decode_utf8_encode_utf8(bytes);
    } else {
        law_marker_reads_back(bytes);
    }
}

/// A bencode value that is converted to JSON and back is the same value, as long as none of its
/// texts looks like a binary marker and its dictionaries list text keys in order, each key once.
pub proof fn law_bencode_survives_json(tree: BencodeTree)
    requires
        faithful(tree),
    ensures
        json_of(tree) matches Ok(json) && bencode_of(json) == Ok::<BencodeTree, Fault<Seq<char>>>(
            tree,
        ),
    decreases tree,
{
    match tree {
        BencodeTree::Integer(_) => {},
        BencodeTree::Bytes(bytes) => lemma_bytes_survive(bytes),
        BencodeTree::List(values) => lemma_values_survive(values),
        BencodeTree::Dict(entries) => {
            lemma_entries_survive(Seq::empty(), entries);
            let members = json_members_of(Seq::empty(), entries)->Ok_0;
            assert(members.skip(0) =~= members);
        },
    }
}

/// The values of a list go through JSON unchanged.
proof fn lemma_values_survive(values: Seq<BencodeTree>)
    requires
        forall|i: int| 0 <= i < values.len() ==> faithful(#[trigger] values[i]),
    ensures
        json_items_of(values) matches Ok(items) && bencode_values_of(items) == Ok::<
            Seq<BencodeTree>,
            Fault<Seq<char>>,
        >(values),
    decreases values,
{
    if values.len() == 0 {
        assert(values =~= Seq::empty());
    } else {
        let rest = values.drop_first();
        law_bencode_survives_json(values[0]);
        lemma_values_survive(rest);
        let items = json_items_of(values)->Ok_0;
        assert(items.drop_first() =~= json_items_of(rest)->Ok_0);
        assert(seq![values[0]] + rest =~= values);
    }
}

/// The entries of a dictionary go through JSON unchanged, and are put behind the members that the
/// object has already.
proof fn lemma_entries_survive(
    members: Seq<(Seq<char>, JsonTree)>,
    entries: Seq<(Seq<u8>, BencodeTree)>,
)
    requires
        forall|i: int|
            0 <= i < entries.len() ==> valid_utf8((#[trigger] entries[i]).0) && faithful(
                entries[i].1,
            ),
        entries_ascend(entries),
        forall|i: int, j: int|
            0 <= i < members.len() && 0 <= j < entries.len() ==> bytes_before(
                encode_utf8(#[trigger] members[i].0),
                #[trigger] entries[j].0,
            ),
    ensures
        json_members_of(members, entries) matches Ok(result) && {
            &&& result.len() == members.len() + entries.len()
            &&& result.take(members.len() as int) == members
            &&& bencode_entries_of(result.skip(members.len() as int)) == Ok::<
                Seq<(Seq<u8>, BencodeTree)>,
                Fault<Seq<char>>,
            >(entries)
        },
    decreases entries,
{
    if entries.len() == 0 {
        assert(members.take(members.len() as int) =~= members);
        assert(members.skip(members.len() as int) =~= Seq::empty());
        assert(entries =~= Seq::empty());
    } else {
        let key = decode_utf8(entries[0].0);
        let rest = entries.drop_first();
        decode_utf8_encode_utf8(entries[0].0);
        law_bencode_survives_json(entries[0].1);
        let value = json_of(entries[0].1)->Ok_0;
        assert forall|i: int| 0 <= i < members.len() implies text_before(
            #[trigger] members[i].0,
            key,
        ) by {
            assert(bytes_before(encode_utf8(members[i].0), entries[0].0));
        }
        lemma_with_last_member(members, key, value);
        let extended = members.push((key, value));
        assert forall|i: int, j: int|
            0 <= i < extended.len() && 0 <= j < rest.len() implies bytes_before(
            encode_utf8(#[trigger] extended[i].0),
            #[trigger] rest[j].0,
        ) by {
            assert(rest[j] == entries[j + 1]);
            if i < members.len() {
                assert(extended[i] == members[i]);
            } else {
                assert(bytes_before(entries[0].0, entries[j + 1].0));
            }
        }
        assert forall|i: int, j: int| 0 <= i < j < rest.len() implies bytes_before(
            #[trigger] rest[i].0,
            #[trigger] rest[j].0,
        ) by {
            assert(rest[i] == entries[i + 1] && rest[j] == entries[j + 1]);
        }
        lemma_entries_survive(extended, rest);
        let result = json_members_of(members, entries)->Ok_0;
        assert(result.take(members.len() as int) =~= extended.take(members.len() as int)) by {
            assert forall|i: int| 0 <= i < members.len() implies result[i] == members[i] by {
                assert(result.take(extended.len() as int)[i] == extended[i]);
            }
        }
        assert(extended.take(members.len() as int) =~= members);
        let tail = result.skip(members.len() as int);
        assert(tail[0] == (key, value)) by {
            assert(result.take(extended.len() as int)[members.len() as int]
                == extended[members.len() as int]);
        }
        assert(tail.drop_first() =~= result.skip(extended.len() as int));
        assert(seq![entries[0]] + rest =~= entries);
    }
}

/// Whether the tree can go through JSON text unchanged: it is faithful, and no text in it holds a
/// line or paragraph separator.
pub open spec fn survives_text(tree: BencodeTree) -> bool {
    &&& faithful(tree)
    &&& json_of(tree) matches Ok(json) ==> unbroken(json)
}

/// The bytes of a line are those of its text and a line feed.
pub proof fn lemma_line_text(text: Seq<char>)
    ensures
        encode_utf8(text.push('\n')) == encode_utf8(text).push(NEWLINE),
        valid_utf8(encode_utf8(text).push(NEWLINE)),
        decode_utf8(encode_utf8(text).push(NEWLINE)) == text.push('\n'),
    decreases text.len(),
{
    let line = text.push('\n');
    if text.len() == 0 {
        assert(is_ascii_chars(line));
        is_ascii_chars_encode_utf8(line);
        assert(encode_utf8(text) =~= Seq::empty());
        assert(encode_utf8(line) =~= encode_utf8(text).push(NEWLINE));
    } else {
        lemma_line_text(text.drop_first());
        assert(line.drop_first() =~= text.drop_first().push('\n'));
        assert(encode_utf8(line) =~= encode_utf8(text).push(NEWLINE));
    }
    encode_utf8_valid_utf8(line);
    encode_utf8_decode_utf8(line);
}

/// JSON that comes from bencode lists the keys of each object in order, each key once, and holds
/// no numbers but signed 64-bit integers.
pub proof fn law_json_is_well_formed(tree: BencodeTree)
    ensures
        json_of(tree) matches Ok(json) ==> ordered(json) && integral(json),
    decreases tree,
{
    match tree {
        BencodeTree::List(values) => lemma_items_are_well_formed(values),
        BencodeTree::Dict(entries) => lemma_members_are_well_formed(Seq::empty(), entries),
        _ => {},
    }
}

/// The items of an array that comes from bencode are well-formed.
proof fn lemma_items_are_well_formed(values: Seq<BencodeTree>)
    ensures
        json_items_of(values) matches Ok(items) ==> forall|i: int|
            0 <= i < items.len() ==> ordered(#[trigger] items[i]) && integral(items[i]),
    decreases values,
{
    if values.len() > 0 {
        law_json_is_well_formed(values[0]);
        lemma_items_are_well_formed(values.drop_first());
    }
}

/// Members that come from bencode keep an object well-formed.
proof fn lemma_members_are_well_formed(
    members: Seq<(Seq<char>, JsonTree)>,
    entries: Seq<(Seq<u8>, BencodeTree)>,
)
    requires
        keys_ascend(members),
        forall|i: int|
            0 <= i < members.len() ==> ordered((#[trigger] members[i]).1) && integral(members[i].1),
    ensures
        json_members_of(members, entries) matches Ok(result) ==> keys_ascend(result) && forall|
            i: int,
        |
            0 <= i < result.len() ==> ordered((#[trigger] result[i]).1) && integral(result[i].1),
    decreases entries,
{
    if entries.len() > 0 {
        law_json_is_well_formed(entries[0].1);
        if let Ok(value) = json_of(entries[0].1) {
            let key = decode_utf8(entries[0].0);
            lemma_members_before(members, key);
            lemma_with_member_ascends(members, key, value);
            lemma_members_are_well_formed(with_member(members, key, value), entries.drop_first());
        }
    }
}

/// Whether lists and dictionaries stand at most `levels` deep in one another.
pub open spec fn bencode_nests_within(tree: BencodeTree, levels: nat) -> bool
    decreases tree,
{
    match tree {
        BencodeTree::List(values) => levels > 0 && forall|i: int|
            0 <= i < values.len() ==> bencode_nests_within(
                #[trigger] values[i],
                (levels - 1) as nat,
            ),
        BencodeTree::Dict(entries) => levels > 0 && forall|i: int|
            0 <= i < entries.len() ==> bencode_nests_within(
                (#[trigger] entries[i]).1,
                (levels - 1) as nat,
            ),
        _ => true,
    }
}

/// JSON that comes from bencode is nested no deeper than the bencode is, and so stays within any
/// limit that the bencode stays within.
pub proof fn law_json_nests_no_deeper(tree: BencodeTree, levels: nat, limit: nat)
    requires
        levels <= limit,
        bencode_nests_within(tree, levels),
    ensures
        json_of(tree) matches Ok(json) ==> nests_within(json, limit),
    decreases tree,
{
    match tree {
        BencodeTree::List(values) => lemma_items_nest_no_deeper(
            values,
            (levels - 1) as nat,
            (limit - 1) as nat,
        ),
        BencodeTree::Dict(entries) => lemma_members_nest_no_deeper(
            Seq::empty(),
            entries,
            (levels - 1) as nat,
            (limit - 1) as nat,
        ),
        _ => {},
    }
}

/// The items of an array that comes from bencode are nested no deeper than the values of the list.
proof fn lemma_items_nest_no_deeper(values: Seq<BencodeTree>, levels: nat, limit: nat)
    requires
        levels <= limit,
        forall|i: int| 0 <= i < values.len() ==> bencode_nests_within(#[trigger] values[i], levels),
    ensures
        json_items_of(values) matches Ok(items) ==> forall|i: int|
            0 <= i < items.len() ==> nests_within(#[trigger] items[i], limit),
    decreases values,
{
    if values.len() > 0 {
        law_json_nests_no_deeper(values[0], levels, limit);
        lemma_items_nest_no_deeper(values.drop_first(), levels, limit);
    }
}

/// Members that come from bencode are nested no deeper than the entries of the dictionary.
proof fn lemma_members_nest_no_deeper(
    members: Seq<(Seq<char>, JsonTree)>,
    entries: Seq<(Seq<u8>, BencodeTree)>,
    levels: nat,
    limit: nat,
)
    requires
        levels <= limit,
        forall|i: int| 0 <= i < members.len() ==> nests_within((#[trigger] members[i]).1, limit),
        forall|i: int|
            0 <= i < entries.len() ==> bencode_nests_within((#[trigger] entries[i]).1, levels),
    ensures
        json_members_of(members, entries) matches Ok(result) ==> forall|i: int|
            0 <= i < result.len() ==> nests_within((#[trigger] result[i]).1, limit),
    decreases entries,
{
    if entries.len() > 0 {
        law_json_nests_no_deeper(entries[0].1, levels, limit);
        if let Ok(value) = json_of(entries[0].1) {
            let key = decode_utf8(entries[0].0);
            lemma_members_before(members, key);
            lemma_members_nest_no_deeper(
                with_member(members, key, value),
                entries.drop_first(),
                levels,
                limit,
            );
        }
    }
}

/// Whether every dictionary of the tree lists its keys in order, each key once.
pub open spec fn canonical(tree: BencodeTree) -> bool
    decreases tree,
{
    match tree {
        BencodeTree::List(values) => forall|i: int|
            0 <= i < values.len() ==> canonical(#[trigger] values[i]),
        BencodeTree::Dict(entries) => entries_ascend(entries) && forall|i: int|
            0 <= i < entries.len() ==> canonical((#[trigger] entries[i]).1),
        _ => true,
    }
}

/// The dictionaries that objects become list their keys in order, each key once, as bencode asks
/// for it.
pub proof fn law_dictionaries_are_canonical(json: JsonTree)
    requires
        ordered(json),
    ensures
        bencode_of(json) matches Ok(tree) ==> canonical(tree),
    decreases json,
{
    match json {
        JsonTree::Array(items) => lemma_values_are_canonical(items),
        JsonTree::Object(members) => {
            lemma_entries_are_canonical(members);
            if let Ok(entries) = bencode_entries_of(members) {
                assert forall|i: int, j: int| 0 <= i < j < entries.len() implies bytes_before(
                    #[trigger] entries[i].0,
                    #[trigger] entries[j].0,
                ) by {
                    assert(text_before(members[i].0, members[j].0));
                }
            }
        },
        _ => {},
    }
}

/// The values that the items of an array become are canonical.
proof fn lemma_values_are_canonical(items: Seq<JsonTree>)
    requires
        forall|i: int| 0 <= i < items.len() ==> ordered(#[trigger] items[i]),
    ensures
        bencode_values_of(items) matches Ok(values) ==> forall|i: int|
            0 <= i < values.len() ==> canonical(#[trigger] values[i]),
    decreases items,
{
    if items.len() > 0 {
        law_dictionaries_are_canonical(items[0]);
        lemma_values_are_canonical(items.drop_first());
    }
}

/// The entries that the members of an object become have the keys of those members, and canonical
/// values.
proof fn lemma_entries_are_canonical(members: Seq<(Seq<char>, JsonTree)>)
    requires
        forall|i: int| 0 <= i < members.len() ==> ordered((#[trigger] members[i]).1),
    ensures
        bencode_entries_of(members) matches Ok(entries) ==> {
            &&& entries.len() == members.len()
            &&& forall|i: int|
                0 <= i < entries.len() ==> (#[trigger] entries[i]).0 == encode_utf8(members[i].0)
                    && canonical(entries[i].1)
        },
    decreases members,
{
    if members.len() > 0 {
        let rest = members.drop_first();
        law_dictionaries_are_canonical(members[0].1);
        lemma_entries_are_canonical(rest);
        if let Ok(entries) = bencode_entries_of(members) {
            let behind = bencode_entries_of(rest)->Ok_0;
            assert forall|i: int| 0 <= i < entries.len() implies (#[trigger] entries[i]).0
                == encode_utf8(members[i].0) && canonical(entries[i].1) by {
                if i > 0 {
                    assert(entries[i] == behind[i - 1] && members[i] == rest[i - 1]);
                }
            }
        }
    }
}

/// Whether bencode can express the value: it holds no null, no numbers but signed 64-bit integers,
/// and no malformed binary marker.
pub open spec fn representable(json: JsonTree) -> bool
    decreases json,
{
    match json {
        JsonTree::Null => false,
        JsonTree::Bool(_) => true,
        JsonTree::Number(number) => number is Some,
        JsonTree::String(text) => marker_reading(text) is Ok,
        JsonTree::Array(items) => forall|i: int|
            0 <= i < items.len() ==> representable(#[trigger] items[i]),
        JsonTree::Object(members) => forall|i: int|
            0 <= i < members.len() ==> representable((#[trigger] members[i]).1),
    }
}

/// A JSON value converts to bencode exactly if bencode can express it.
pub proof fn law_representable_json_converts(json: JsonTree)
    ensures
        bencode_of(json) is Ok <==> representable(json),
    decreases json,
{
    match json {
        JsonTree::Array(items) => lemma_representable_items_convert(items),
        JsonTree::Object(members) => lemma_representable_members_convert(members),
        _ => {},
    }
}

/// The items of an array convert exactly if bencode can express each of them.
proof fn lemma_representable_items_convert(items: Seq<JsonTree>)
    ensures
        bencode_values_of(items) is Ok <==> forall|i: int|
            0 <= i < items.len() ==> representable(#[trigger] items[i]),
    decreases items,
{
    if items.len() > 0 {
        let rest = items.drop_first();
        law_representable_json_converts(items[0]);
        lemma_representable_items_convert(rest);
        if bencode_values_of(items) is Ok {
            assert forall|i: int| 0 <= i < items.len() implies representable(#[trigger] items[i]) by {
                if i > 0 {
                    assert(representable(rest[i - 1]));
                }
            }
        }
    }
}

/// The members of an object convert exactly if bencode can express the value of each of them.
proof fn lemma_representable_members_convert(members: Seq<(Seq<char>, JsonTree)>)
    ensures
        bencode_entries_of(members) is Ok <==> forall|i: int|
            0 <= i < members.len() ==> representable((#[trigger] members[i]).1),
    decreases members,
{
    if members.len() > 0 {
        let rest = members.drop_first();
        law_representable_json_converts(members[0].1);
        lemma_representable_members_convert(rest);
        if bencode_entries_of(members) is Ok {
            assert forall|i: int| 0 <= i < members.len() implies representable(
                (#[trigger] members[i]).1,
            ) by {
                if i > 0 {
                    assert(representable(rest[i - 1].1));
                }
            }
        }
    }
}

/// Whether every key of every dictionary of the tree is text.
pub open spec fn has_text_keys(tree: BencodeTree) -> bool
    decreases tree,
{
    match tree {
        BencodeTree::List(values) => forall|i: int|
            0 <= i < values.len() ==> has_text_keys(#[trigger] values[i]),
        BencodeTree::Dict(entries) => forall|i: int|
            0 <= i < entries.len() ==> valid_utf8((#[trigger] entries[i]).0) && has_text_keys(
                entries[i].1,
            ),
        _ => true,
    }
}

/// A bencode value converts to JSON exactly if the keys of its dictionaries are text, and the one
/// fault is a key that is not.
pub proof fn law_text_keys_convert(tree: BencodeTree)
    ensures
        json_of(tree) is Ok <==> has_text_keys(tree),
        json_of(tree) matches Err(fault) ==> fault == Fault::<Seq<char>>::KeyNotUtf8,
    decreases tree,
{
    match tree {
        BencodeTree::List(values) => lemma_values_with_text_keys_convert(values),
        BencodeTree::Dict(entries) => lemma_text_keys_convert(Seq::empty(), entries),
        _ => {},
    }
}

/// The values of a list convert exactly if the keys in each of them are text.
proof fn lemma_values_with_text_keys_convert(values: Seq<BencodeTree>)
    ensures
        json_items_of(values) is Ok <==> forall|i: int|
            0 <= i < values.len() ==> has_text_keys(#[trigger] values[i]),
        json_items_of(values) matches Err(fault) ==> fault == Fault::<Seq<char>>::KeyNotUtf8,
    decreases values,
{
    if values.len() > 0 {
        let rest = values.drop_first();
        law_text_keys_convert(values[0]);
        lemma_values_with_text_keys_convert(rest);
        if json_items_of(values) is Ok {
            assert forall|i: int| 0 <= i < values.len() implies has_text_keys(
                #[trigger] values[i],
            ) by {
                if i > 0 {
                    assert(has_text_keys(rest[i - 1]));
                }
            }
        }
    }
}

/// The entries of a dictionary convert exactly if the keys in it and below it are text.
proof fn lemma_text_keys_convert(
    members: Seq<(Seq<char>, JsonTree)>,
    entries: Seq<(Seq<u8>, BencodeTree)>,
)
    ensures
        json_members_of(members, entries) is Ok <==> forall|i: int|
            0 <= i < entries.len() ==> valid_utf8((#[trigger] entries[i]).0) && has_text_keys(
                entries[i].1,
            ),
        json_members_of(members, entries) matches Err(fault) ==> fault == Fault::<
            Seq<char>,
        >::KeyNotUtf8,
    decreases entries,
{
    if entries.len() > 0 {
        let rest = entries.drop_first();
        law_text_keys_convert(entries[0].1);
        if valid_utf8(entries[0].0) && json_of(entries[0].1) is Ok {
            let extended = with_member(
                members,
                decode_utf8(entries[0].0),
                json_of(entries[0].1)->Ok_0,
            );
            lemma_text_keys_convert(extended, rest);
            if json_members_of(members, entries) is Ok {
                assert forall|i: int| 0 <= i < entries.len() implies valid_utf8(
                    (#[trigger] entries[i]).0,
                ) && has_text_keys(entries[i].1) by {
                    if i > 0 {
                        assert(valid_utf8(rest[i - 1].0) && has_text_keys(rest[i - 1].1));
                    }
                }
            }
        }
    }
}

/// The keys of the dictionaries that objects become are text.
proof fn lemma_keys_become_text(json: JsonTree)
    ensures
        bencode_of(json) matches Ok(tree) ==> has_text_keys(tree),
    decreases json,
{
    match json {
        JsonTree::Array(items) => lemma_keys_of_items_become_text(items),
        JsonTree::Object(members) => lemma_keys_of_members_become_text(members),
        _ => {},
    }
}

/// The keys in the values that the items of an array become are text.
proof fn lemma_keys_of_items_become_text(items: Seq<JsonTree>)
    ensures
        bencode_values_of(items) matches Ok(values) ==> forall|i: int|
            0 <= i < values.len() ==> has_text_keys(#[trigger] values[i]),
    decreases items,
{
    if items.len() > 0 {
        lemma_keys_become_text(items[0]);
        lemma_keys_of_items_become_text(items.drop_first());
    }
}

/// The keys of the entries that the members of an object become, and those below them, are text.
proof fn lemma_keys_of_members_become_text(members: Seq<(Seq<char>, JsonTree)>)
    ensures
        bencode_entries_of(members) matches Ok(entries) ==> forall|i: int|
            0 <= i < entries.len() ==> valid_utf8((#[trigger] entries[i]).0) && has_text_keys(
                entries[i].1,
            ),
    decreases members,
{
    if members.len() > 0 {
        lemma_keys_become_text(members[0].1);
        lemma_keys_of_members_become_text(members.drop_first());
        encode_utf8_valid_utf8(members[0].0);
    }
}

/// The encoding of a value is taken for bencode, and converts to the JSON text of that value.
pub proof fn law_encodings_are_detected(tree: BencodeTree)
    requires
        encoding(tree).len() <= usize::MAX,
    ensures
        is_bencode(encoding(tree)),
        converted_bencode(encoding(tree)) == json_text(tree),
{
    let data = encoding(tree);
    assert(data.subrange(0, data.len() as int) =~= data);
    law_encoding_reads_back(data, 0, tree);
}

/// Only input that begins like a bencode value is taken for bencode. No JSON object, array or
/// string does, nor does a literal, nor anything that begins with white space.
pub proof fn law_other_input_is_not_bencode(data: Seq<u8>)
    requires
        data.len() > 0 ==> {
            &&& data[0] != LOWER_I
            &&& data[0] != LOWER_L
            &&& data[0] != LOWER_D
            &&& !is_digit(data[0])
        },
    ensures
        !is_bencode(data),
{
}

/// A number on a line of its own is not taken for bencode, though it may begin like a byte string.
pub proof fn law_number_line_is_not_bencode(number: int)
    ensures
        !is_bencode(signed_decimal(number).push(NEWLINE)),
{
    let digits = signed_decimal(number);
    let line = digits.push(NEWLINE);
    if number >= 0 {
        lemma_decimal_digits(number as nat);
        assert forall|i: int| 0 <= i < digits.len() implies is_digit(#[trigger] line[i]) by {
            assert(line[i] == decimal(number as nat)[i]);
        }
        lemma_digits_end_found(line, 0, digits.len() as int);
    } else {
        assert(line[0] == MINUS);
    }
}

/// What JSON converts to is taken for bencode, and converts back to JSON.
pub proof fn law_output_converts_back(data: Seq<u8>)
    ensures
        converted_json(data) matches Ok(output) ==> output.len() <= usize::MAX ==> is_bencode(output)
            && converted_bencode(output) is Ok,
{
    if let Ok(output) = converted_json(data) {
        let json = json5_reading(decode_utf8(data))->Ok_0;
        let tree = bencode_of(json)->Ok_0;
        lemma_keys_become_text(json);
        law_text_keys_convert(tree);
        if output.len() <= usize::MAX {
            law_encodings_are_detected(tree);
        }
    }
}

/// JSON text that reads as what a value converts to, however it is written, converts back to the
/// encoding of that value, where its reader does not run short.
pub proof fn law_any_writing_converts_back(tree: BencodeTree, data: Seq<u8>)
    requires
        faithful(tree),
        valid_utf8(data),
        json_of(tree) matches Ok(json) && json5_reading(decode_utf8(data)) == Ok::<
            JsonTree,
            Seq<char>,
        >(json),
    ensures
        converted_json(data) == Ok::<Seq<u8>, Fault<Seq<char>>>(encoding(tree)),
{
    law_bencode_survives_json(tree);
}

/// Whether the value can go through bencode unchanged: it holds strings, arrays, objects and
/// signed 64-bit integers alone, its strings are no markers but those for bytes that are not text,
/// and the keys of its objects ascend.
pub open spec fn plain(json: JsonTree) -> bool
    decreases json,
{
    match json {
        JsonTree::Null => false,
        JsonTree::Bool(_) => false,
        JsonTree::Number(number) => number is Some,
        JsonTree::String(text) => match marker_reading(text) {
            Ok(None) => true,
            Ok(Some(bytes)) => !valid_utf8(bytes) && text == marker_text(bytes),
            Err(_) => false,
        },
        JsonTree::Array(items) => forall|i: int| 0 <= i < items.len() ==> plain(#[trigger] items[i]),
        JsonTree::Object(members) => keys_ascend(members) && forall|i: int|
            0 <= i < members.len() ==> plain((#[trigger] members[i]).1),
    }
}

/// A plain JSON value that is converted to bencode and back is the same value.
pub proof fn law_json_survives_bencode(json: JsonTree)
    requires
        plain(json),
    ensures
        bencode_of(json) matches Ok(tree) && json_of(tree) == Ok::<JsonTree, Fault<Seq<char>>>(json),
    decreases json,
{
    match json {
        JsonTree::String(text) => {
            encode_utf8_valid_utf8(text);
            encode_utf8_decode_utf8(text);
        },
        JsonTree::Array(items) => lemma_items_survive(items),
        JsonTree::Object(members) => {
            lemma_members_survive(Seq::empty(), members);
            assert(Seq::empty() + members =~= members);
        },
        _ => {},
    }
}

/// The items of an array go through bencode unchanged.
proof fn lemma_items_survive(items: Seq<JsonTree>)
    requires
        forall|i: int| 0 <= i < items.len() ==> plain(#[trigger] items[i]),
    ensures
        bencode_values_of(items) matches Ok(values) && json_items_of(values) == Ok::<
            Seq<JsonTree>,
            Fault<Seq<char>>,
        >(items),
    decreases items,
{
    if items.len() == 0 {
        assert(items =~= Seq::empty());
    } else {
        let rest = items.drop_first();
        law_json_survives_bencode(items[0]);
        lemma_items_survive(rest);
        let values = bencode_values_of(items)->Ok_0;
        assert(values.drop_first() =~= bencode_values_of(rest)->Ok_0);
        assert(seq![items[0]] + rest =~= items);
    }
}

/// The members of an object go through bencode unchanged, and are put behind those that the
/// object has already.
proof fn lemma_members_survive(
    before: Seq<(Seq<char>, JsonTree)>,
    members: Seq<(Seq<char>, JsonTree)>,
)
    requires
        forall|i: int| 0 <= i < members.len() ==> plain((#[trigger] members[i]).1),
        keys_ascend(members),
        forall|i: int, j: int|
            0 <= i < before.len() && 0 <= j < members.len() ==> text_before(
                #[trigger] before[i].0,
                #[trigger] members[j].0,
            ),
    ensures
        bencode_entries_of(members) matches Ok(entries) && json_members_of(before, entries) == Ok::<
            Seq<(Seq<char>, JsonTree)>,
            Fault<Seq<char>>,
        >(before + members),
    decreases members,
{
    if members.len() == 0 {
        assert(before + members =~= before);
    } else {
        let (key, value) = members[0];
        let rest = members.drop_first();
        let extended = before.push((key, value));
        law_json_survives_bencode(value);
        encode_utf8_valid_utf8(key);
        encode_utf8_decode_utf8(key);
        lemma_with_last_member(before, key, value);
        assert forall|i: int, j: int|
            0 <= i < extended.len() && 0 <= j < rest.len() implies text_before(
            #[trigger] extended[i].0,
            #[trigger] rest[j].0,
        ) by {
            assert(rest[j] == members[j + 1]);
            if i < before.len() {
                assert(extended[i] == before[i]);
            } else {
                assert(text_before(members[0].0, members[j + 1].0));
            }
        }
        assert forall|i: int, j: int| 0 <= i < j < rest.len() implies text_before(
            #[trigger] rest[i].0,
            #[trigger] rest[j].0,
        ) by {
            assert(rest[i] == members[i + 1] && rest[j] == members[j + 1]);
        }
        lemma_members_survive(extended, rest);
        let entries = bencode_entries_of(members)->Ok_0;
        assert(entries.drop_first() =~= bencode_entries_of(rest)->Ok_0);
        assert(extended + rest =~= before + members);
    }
}

/// Input is taken for bencode exactly if one value is read from its beginning to its end.
pub proof fn law_bencode_is_one_whole_value(data: Seq<u8>)
    ensures
        is_bencode(data) <==> exists|tree: BencodeTree|
            value_at(data, 0) == (#[trigger] whole_value(tree, data.len() as int)),
{
    if is_bencode(data) {
        let tree = value_at(data, 0).0->Ok_0;
        assert(value_at(data, 0) == whole_value(tree, data.len() as int));
    }
}

/// A value that is read up to `end`.
pub open spec fn whole_value(tree: BencodeTree, end: int) -> (
    Result<BencodeTree, Fault<Seq<char>>>,
    int,
) {
    (Ok(tree), end)
}

/// Bencode input converts to the text of the JSON that its value becomes, and a line feed. Input
/// that does not begin with a value, input with something behind its value, and a value that
/// becomes no JSON are refused.
pub proof fn law_bencode_input_converts(data: Seq<u8>)
    ensures
        value_at(data, 0).0 matches Err(fault) ==> converted_bencode(data) == Err::<
            Seq<u8>,
            Fault<Seq<char>>,
        >(fault),
        value_at(data, 0).0 is Ok && value_at(data, 0).1 != data.len() ==> converted_bencode(data)
            == Err::<Seq<u8>, Fault<Seq<char>>>(Fault::TrailingBytes),
        value_at(data, 0).1 == data.len() ==> (value_at(data, 0).0 matches Ok(tree) ==> {
            &&& json_of(tree) matches Err(fault) ==> converted_bencode(data) == Err::<
                Seq<u8>,
                Fault<Seq<char>>,
            >(fault)
            &&& json_of(tree) matches Ok(json) ==> converted_bencode(data) == Ok::<
                Seq<u8>,
                Fault<Seq<char>>,
            >(encode_utf8(pretty_json(json)) + seq![0x0au8])
        }),
{
    if let Ok(tree) = value_at(data, 0).0 {
        if let Ok(json) = json_of(tree) {
            assert(encode_utf8(pretty_json(json)).push(NEWLINE) =~= encode_utf8(pretty_json(json))
                + seq![0x0au8]);
        }
    }
}

/// A bencode value is written as the text of the JSON that it becomes, and a line feed, and refused
/// exactly if it becomes no JSON.
pub proof fn law_bencode_values_are_written_as_json(tree: BencodeTree)
    ensures
        json_of(tree) matches Err(fault) ==> json_text(tree) == Err::<Seq<u8>, Fault<Seq<char>>>(
            fault,
        ),
        json_of(tree) matches Ok(json) ==> json_text(tree) == Ok::<Seq<u8>, Fault<Seq<char>>>(
            encode_utf8(pretty_json(json)) + seq![0x0au8],
        ),
{
    if let Ok(json) = json_of(tree) {
        assert(encode_utf8(pretty_json(json)).push(NEWLINE) =~= encode_utf8(pretty_json(json))
            + seq![0x0au8]);
    }
}

/// JSON5 input converts to the encoding of what its value becomes. Input that is not text, input
/// that does not read as JSON5, and a value that becomes no bencode are refused.
pub proof fn law_json_input_converts(data: Seq<u8>)
    ensures
        !valid_utf8(data) ==> converted_json(data) == Err::<Seq<u8>, Fault<Seq<char>>>(
            Fault::NotUtf8(utf8_error_text(data)),
        ),
        valid_utf8(data) ==> (json5_reading(decode_utf8(data)) matches Err(message)
            ==> converted_json(data) == Err::<Seq<u8>, Fault<Seq<char>>>(
            Fault::InvalidJson(message),
        )),
        valid_utf8(data) ==> (json5_reading(decode_utf8(data)) matches Ok(json) ==> {
            &&& bencode_of(json) matches Err(fault) ==> converted_json(data) == Err::<
                Seq<u8>,
                Fault<Seq<char>>,
            >(fault)
            &&& bencode_of(json) matches Ok(tree) ==> converted_json(data) == Ok::<
                Seq<u8>,
                Fault<Seq<char>>,
            >(encoding(tree))
        }),
{
}

/// What was read of JSON5 text is encoded, or its error is taken up.
pub proof fn law_what_was_read_is_encoded(json: JsonTree, message: Seq<char>)
    ensures
        bencode_of(json) matches Ok(tree) ==> encoded_reading(Ok::<JsonTree, Seq<char>>(json)) == Ok::<
            Seq<u8>,
            Fault<Seq<char>>,
        >(encoding(tree)),
        bencode_of(json) matches Err(fault) ==> encoded_reading(Ok::<JsonTree, Seq<char>>(json))
            == Err::<Seq<u8>, Fault<Seq<char>>>(fault),
        encoded_reading(Err::<JsonTree, Seq<char>>(message)) == Err::<Seq<u8>, Fault<Seq<char>>>(
            Fault::InvalidJson(message),
        ),
{
}

/// Text is refused as JSON5 only if the reader, called on it, came back with an error. If it can
/// only come back with a value, the result is what that value becomes.
pub proof fn law_text_that_reads_is_converted(data: &[u8], result: Result<Vec<u8>, Fault<String>>)
    requires
        call_ensures(json_to_bencode, (data,), result),
        valid_utf8(data@),
        forall|read: Result<Value, String>| #[trigger]
            reader_returned(decode_utf8(data@), read) ==> read is Ok,
    ensures
        !(result matches Err(Fault::InvalidJson(_))),
        !(result matches Err(Fault::NotUtf8(_))),
        exists|value: Value| #[trigger]
            reader_returned(decode_utf8(data@), Ok(value)) && (match result {
                Ok(output) => bencode_of(value_tree(value)) matches Ok(tree) && output@ == encoding(
                    tree,
                ),
                Err(fault) => bencode_of(value_tree(value)) matches Err(found) && fault@ == found,
            }),
{
    let read = choose|read: Result<Value, String>| #[trigger]
        reader_returned(decode_utf8(data@), read) && meaning(result) == (match read {
            Ok(value) => match bencode_of(value_tree(value)) {
                Ok(tree) => Ok(encoding(tree)),
                Err(fault) => Err(fault),
            },
            Err(message) => Err(Fault::InvalidJson(message@)),
        });
    let value = read->Ok_0;
    law_faults_of_json_values(value_tree(value));
    assert(reader_returned(decode_utf8(data@), Ok(value)));
}

} // verus!

//! What each value converts to, part by part.

use vstd::prelude::*;
use vstd::utf8::{
    decode_utf8, decode_utf8_encode_utf8, encode_utf8, encode_utf8_decode_utf8, valid_utf8,
};

use crate::bencode::BencodeTree;
use crate::convert::{
    bencode_entries_of, bencode_of, bencode_values_of, json_items_of, json_members_of, json_of,
};
use crate::fault::Fault;
use crate::json::{
    bytes_before, keys_ascend, lemma_members_before, lemma_not_before_itself,
    lemma_with_member_ascends, members_before, text_before, with_member, JsonTree,
};
use crate::marker::{marker_reading, marker_text};

verus! {

/// Null and numbers that are no signed 64-bit integers are refused, booleans become one and zero,
/// and integers stay what they are.
pub proof fn law_scalars_become_integers(number: i64)
    ensures
        bencode_of(JsonTree::Null) == Err::<BencodeTree, Fault<Seq<char>>>(Fault::NullValue),
        bencode_of(JsonTree::Bool(true)) == Ok::<BencodeTree, Fault<Seq<char>>>(
            BencodeTree::Integer(1),
        ),
        bencode_of(JsonTree::Bool(false)) == Ok::<BencodeTree, Fault<Seq<char>>>(
            BencodeTree::Integer(0),
        ),
        bencode_of(JsonTree::Number(Some(number))) == Ok::<BencodeTree, Fault<Seq<char>>>(
            BencodeTree::Integer(number),
        ),
        bencode_of(JsonTree::Number(None)) == Err::<BencodeTree, Fault<Seq<char>>>(
            Fault::NotAnInteger,
        ),
        json_of(BencodeTree::Integer(number)) == Ok::<JsonTree, Fault<Seq<char>>>(
            JsonTree::Number(Some(number)),
        ),
{
}

/// A string becomes the bytes that encode it, unless it is a marker, which becomes the bytes that
/// it stands for, or a faulty marker, which is refused.
pub proof fn law_strings_become_bytes(text: Seq<char>)
    ensures
        marker_reading(text) == Ok::<Option<Seq<u8>>, Fault<Seq<char>>>(None) ==> bencode_of(
            JsonTree::String(text),
        ) == Ok::<BencodeTree, Fault<Seq<char>>>(BencodeTree::Bytes(encode_utf8(text))),
        marker_reading(text) matches Ok(Some(bytes)) ==> bencode_of(JsonTree::String(text)) == Ok::<
            BencodeTree,
            Fault<Seq<char>>,
        >(BencodeTree::Bytes(bytes)),
        marker_reading(text) matches Err(fault) ==> bencode_of(JsonTree::String(text)) == Err::<
            BencodeTree,
            Fault<Seq<char>>,
        >(fault),
{
}

/// Bytes that encode a text become that text, and any others become their marker.
pub proof fn law_bytes_become_strings(bytes: Seq<u8>)
    ensures
        valid_utf8(bytes) ==> (json_of(BencodeTree::Bytes(bytes)) matches Ok(JsonTree::String(text))
            && encode_utf8(text) == bytes),
        !valid_utf8(bytes) ==> json_of(BencodeTree::Bytes(bytes)) == Ok::<
            JsonTree,
            Fault<Seq<char>>,
        >(JsonTree::String(marker_text(bytes))),
{
    if valid_utf8(bytes) {
        decode_utf8_encode_utf8(bytes);
    }
}

/// Whether this item is the first that is refused, with this fault.
pub open spec fn first_item_refused(
    items: Seq<JsonTree>,
    place: int,
    fault: Fault<Seq<char>>,
) -> bool {
    &&& 0 <= place < items.len()
    &&& bencode_of(items[place]) == Err::<BencodeTree, Fault<Seq<char>>>(fault)
    &&& forall|i: int| 0 <= i < place ==> bencode_of(#[trigger] items[i]) is Ok
}

/// An array becomes a list of as many values, each of them what the item at its place becomes. It
/// is refused with the fault of the first item that is refused.
pub proof fn law_arrays_become_lists(items: Seq<JsonTree>)
    ensures
        bencode_of(JsonTree::Array(items)) matches Ok(tree) ==> (tree matches BencodeTree::List(
            values,
        ) && values.len() == items.len() && forall|i: int|
            0 <= i < items.len() ==> bencode_of(items[i]) == Ok::<BencodeTree, Fault<Seq<char>>>(
                #[trigger] values[i],
            )),
        bencode_of(JsonTree::Array(items)) matches Err(fault) ==> exists|place: int| #[trigger]
            first_item_refused(items, place, fault),
{
    lemma_items_become_values(items);
}

/// The items of an array become values one by one.
proof fn lemma_items_become_values(items: Seq<JsonTree>)
    ensures
        bencode_values_of(items) matches Ok(values) ==> values.len() == items.len() && forall|i: int|
            0 <= i < items.len() ==> bencode_of(items[i]) == Ok::<BencodeTree, Fault<Seq<char>>>(
                #[trigger] values[i],
            ),
        bencode_values_of(items) matches Err(fault) ==> exists|place: int| #[trigger]
            first_item_refused(items, place, fault),
    decreases items.len(),
{
    if items.len() > 0 {
        let rest = items.drop_first();
        lemma_items_become_values(rest);
        let all = bencode_values_of(items);
        if bencode_of(items[0]) is Err {
            assert(first_item_refused(items, 0, all->Err_0));
        } else if all is Ok {
            let behind = bencode_values_of(rest)->Ok_0;
            assert forall|i: int| 0 <= i < items.len() implies bencode_of(items[i]) == Ok::<
                BencodeTree,
                Fault<Seq<char>>,
            >(#[trigger] all->Ok_0[i]) by {
                if i > 0 {
                    assert(all->Ok_0[i] == behind[i - 1] && items[i] == rest[i - 1]);
                }
            }
        } else {
            let fault = all->Err_0;
            let place = choose|place: int| #[trigger] first_item_refused(rest, place, fault);
            assert forall|i: int| 0 <= i < place + 1 implies bencode_of(#[trigger] items[i]) is Ok by {
                if i > 0 {
                    assert(items[i] == rest[i - 1]);
                }
            }
            assert(first_item_refused(items, place + 1, fault));
        }
    }
}

/// Whether this member is the first whose value is refused, with this fault.
pub open spec fn first_member_refused(
    members: Seq<(Seq<char>, JsonTree)>,
    place: int,
    fault: Fault<Seq<char>>,
) -> bool {
    &&& 0 <= place < members.len()
    &&& bencode_of(members[place].1) == Err::<BencodeTree, Fault<Seq<char>>>(fault)
    &&& forall|i: int| 0 <= i < place ==> bencode_of((#[trigger] members[i]).1) is Ok
}

/// An object becomes a dictionary of as many entries, each of them with the bytes that encode the
/// key of the member at its place and with what its value becomes. It is refused with the fault of
/// the first member that is refused.
pub proof fn law_objects_become_dictionaries(members: Seq<(Seq<char>, JsonTree)>)
    ensures
        bencode_of(JsonTree::Object(members)) matches Ok(tree) ==> (tree matches BencodeTree::Dict(
            entries,
        ) && entries.len() == members.len() && forall|i: int|
            0 <= i < members.len() ==> (#[trigger] entries[i]).0 == encode_utf8(members[i].0)
                && bencode_of(members[i].1) == Ok::<BencodeTree, Fault<Seq<char>>>(entries[i].1)),
        bencode_of(JsonTree::Object(members)) matches Err(fault) ==> exists|place: int| #[trigger]
            first_member_refused(members, place, fault),
{
    lemma_members_become_entries(members);
}

/// The members of an object become entries one by one.
proof fn lemma_members_become_entries(members: Seq<(Seq<char>, JsonTree)>)
    ensures
        bencode_entries_of(members) matches Ok(entries) ==> entries.len() == members.len()
            && forall|i: int|
            0 <= i < members.len() ==> (#[trigger] entries[i]).0 == encode_utf8(members[i].0)
                && bencode_of(members[i].1) == Ok::<BencodeTree, Fault<Seq<char>>>(entries[i].1),
        bencode_entries_of(members) matches Err(fault) ==> exists|place: int| #[trigger]
            first_member_refused(members, place, fault),
    decreases members.len(),
{
    if members.len() > 0 {
        let rest = members.drop_first();
        lemma_members_become_entries(rest);
        let all = bencode_entries_of(members);
        if bencode_of(members[0].1) is Err {
            assert(first_member_refused(members, 0, all->Err_0));
        } else if all is Ok {
            let entries = all->Ok_0;
            let behind = bencode_entries_of(rest)->Ok_0;
            assert forall|i: int| 0 <= i < members.len() implies (#[trigger] entries[i]).0
                == encode_utf8(members[i].0) && bencode_of(members[i].1) == Ok::<
                BencodeTree,
                Fault<Seq<char>>,
            >(entries[i].1) by {
                if i > 0 {
                    assert(entries[i] == behind[i - 1] && members[i] == rest[i - 1]);
                }
            }
        } else {
            let fault = all->Err_0;
            let place = choose|place: int| #[trigger] first_member_refused(rest, place, fault);
            assert forall|i: int| 0 <= i < place + 1 implies bencode_of(
                (#[trigger] members[i]).1,
            ) is Ok by {
                if i > 0 {
                    assert(members[i] == rest[i - 1]);
                }
            }
            assert(first_member_refused(members, place + 1, fault));
        }
    }
}

/// Whether this value is the first that is refused, with this fault.
pub open spec fn first_value_refused(
    values: Seq<BencodeTree>,
    place: int,
    fault: Fault<Seq<char>>,
) -> bool {
    &&& 0 <= place < values.len()
    &&& json_of(values[place]) == Err::<JsonTree, Fault<Seq<char>>>(fault)
    &&& forall|i: int| 0 <= i < place ==> json_of(#[trigger] values[i]) is Ok
}

/// A list becomes an array of as many items, each of them what the value at its place becomes. It
/// is refused with the fault of the first value that is refused.
pub proof fn law_lists_become_arrays(values: Seq<BencodeTree>)
    ensures
        json_of(BencodeTree::List(values)) matches Ok(json) ==> (json matches JsonTree::Array(items)
            && items.len() == values.len() && forall|i: int|
            0 <= i < values.len() ==> json_of(values[i]) == Ok::<JsonTree, Fault<Seq<char>>>(
                #[trigger] items[i],
            )),
        json_of(BencodeTree::List(values)) matches Err(fault) ==> exists|place: int| #[trigger]
            first_value_refused(values, place, fault),
{
    lemma_values_become_items(values);
}

/// The values of a list become items one by one.
proof fn lemma_values_become_items(values: Seq<BencodeTree>)
    ensures
        json_items_of(values) matches Ok(items) ==> items.len() == values.len() && forall|i: int|
            0 <= i < values.len() ==> json_of(values[i]) == Ok::<JsonTree, Fault<Seq<char>>>(
                #[trigger] items[i],
            ),
        json_items_of(values) matches Err(fault) ==> exists|place: int| #[trigger]
            first_value_refused(values, place, fault),
    decreases values.len(),
{
    if values.len() > 0 {
        let rest = values.drop_first();
        lemma_values_become_items(rest);
        let all = json_items_of(values);
        if json_of(values[0]) is Err {
            assert(first_value_refused(values, 0, all->Err_0));
        } else if all is Ok {
            let behind = json_items_of(rest)->Ok_0;
            assert forall|i: int| 0 <= i < values.len() implies json_of(values[i]) == Ok::<
                JsonTree,
                Fault<Seq<char>>,
            >(#[trigger] all->Ok_0[i]) by {
                if i > 0 {
                    assert(all->Ok_0[i] == behind[i - 1] && values[i] == rest[i - 1]);
                }
            }
        } else {
            let fault = all->Err_0;
            let place = choose|place: int| #[trigger] first_value_refused(rest, place, fault);
            assert forall|i: int| 0 <= i < place + 1 implies json_of(#[trigger] values[i]) is Ok by {
                if i > 0 {
                    assert(values[i] == rest[i - 1]);
                }
            }
            assert(first_value_refused(values, place + 1, fault));
        }
    }
}

/// Whether this entry is the last with its key.
pub open spec fn last_with_key(
    entries: Seq<(Seq<u8>, BencodeTree)>,
    place: int,
    key: Seq<u8>,
) -> bool {
    &&& 0 <= place < entries.len()
    &&& entries[place].0 == key
    &&& forall|i: int| place < i < entries.len() ==> (#[trigger] entries[i]).0 != key
}

/// Whether an entry with the key that encodes `key`, and the last such, becomes `value`.
pub open spec fn last_becomes(
    entries: Seq<(Seq<u8>, BencodeTree)>,
    key: Seq<char>,
    value: JsonTree,
) -> bool {
    exists|place: int| #[trigger]
        last_with_key(entries, place, encode_utf8(key)) && json_of(entries[place].1) == Ok::<
            JsonTree,
            Fault<Seq<char>>,
        >(value)
}

/// Whether some entry has this key.
pub open spec fn has_key(entries: Seq<(Seq<u8>, BencodeTree)>, key: Seq<u8>) -> bool {
    exists|place: int| 0 <= place < entries.len() && (#[trigger] entries[place]).0 == key
}

/// Whether this entry is the first that is refused, with this fault: because its key is not text,
/// or because its value is refused.
pub open spec fn first_entry_refused(
    entries: Seq<(Seq<u8>, BencodeTree)>,
    place: int,
    fault: Fault<Seq<char>>,
) -> bool {
    &&& 0 <= place < entries.len()
    &&& if valid_utf8(entries[place].0) {
        json_of(entries[place].1) == Err::<JsonTree, Fault<Seq<char>>>(fault)
    } else {
        fault == Fault::<Seq<char>>::KeyNotUtf8
    }
    &&& forall|i: int|
        0 <= i < place ==> valid_utf8((#[trigger] entries[i]).0) && json_of(entries[i].1) is Ok
}

/// A dictionary becomes an object, whatever the order of its keys. A key is in the object exactly
/// if some entry has it, its value is what the last such entry becomes, and the members are in the
/// order of their keys, each key once. The dictionary is refused with the fault of the first entry
/// that is refused.
pub proof fn law_dictionaries_become_objects(entries: Seq<(Seq<u8>, BencodeTree)>)
    ensures
        json_of(BencodeTree::Dict(entries)) matches Ok(json) ==> (json matches JsonTree::Object(
            members,
        ) && keys_ascend(members) && forall|key: Seq<char>, value: JsonTree| #[trigger]
            members.contains((key, value)) <==> last_becomes(entries, key, value)),
        json_of(BencodeTree::Dict(entries)) matches Ok(_) ==> forall|i: int|
            0 <= i < entries.len() ==> valid_utf8((#[trigger] entries[i]).0) && json_of(
                entries[i].1,
            ) is Ok,
        json_of(BencodeTree::Dict(entries)) matches Err(fault) ==> exists|place: int| #[trigger]
            first_entry_refused(entries, place, fault),
{
    lemma_entries_become_members(Seq::empty(), entries);
    if let Ok(JsonTree::Object(members)) = json_of(BencodeTree::Dict(entries)) {
        assert forall|key: Seq<char>, value: JsonTree| #[trigger]
            members.contains((key, value)) <==> last_becomes(entries, key, value) by {
            assert(members.contains((key, value)) <==> became(
                Seq::empty(),
                entries,
                key,
                value,
            ));
        }
    }
}

/// What an object holds after entries were put into it: what they became, and under other keys
/// what it held before.
spec fn became(
    before: Seq<(Seq<char>, JsonTree)>,
    entries: Seq<(Seq<u8>, BencodeTree)>,
    key: Seq<char>,
    value: JsonTree,
) -> bool {
    if has_key(entries, encode_utf8(key)) {
        last_becomes(entries, key, value)
    } else {
        before.contains((key, value))
    }
}

/// Putting a value under a key leaves it there alone, and leaves the other keys as they are.
pub proof fn law_with_member_puts_one_value(
    members: Seq<(Seq<char>, JsonTree)>,
    key: Seq<char>,
    value: JsonTree,
)
    requires
        keys_ascend(members),
    ensures
        keys_ascend(with_member(members, key, value)),
        with_member(members, key, value).contains((key, value)),
        forall|other: Seq<char>, held: JsonTree|
            #![trigger with_member(members, key, value).contains((other, held))]
            with_member(members, key, value).contains((other, held)) <==> if other == key {
                held == value
            } else {
                members.contains((other, held))
            },
        with_member(members, key, value).len() == members.len() + (if exists|i: int|
            0 <= i < members.len() && (#[trigger] members[i]).0 == key {
            0int
        } else {
            1
        }),
{
    let result = with_member(members, key, value);
    let place = members_before(members, key) as int;
    lemma_members_before(members, key);
    lemma_with_member_ascends(members, key, value);
    assert(result[place] == (key, value));
    let found = place < members.len() && members[place].0 == key;
    assert forall|i: int| 0 <= i < members.len() && (#[trigger] members[i]).0 == key implies found by {
        lemma_not_before_itself(encode_utf8(key));
        if i > place {
            assert(text_before(members[place].0, members[i].0));
        }
    }
    assert forall|other: Seq<char>, held: JsonTree| #[trigger]
        result.contains((other, held)) <==> if other == key {
            held == value
        } else {
            members.contains((other, held))
        } by {
        if result.contains((other, held)) {
            let i = choose|i: int| 0 <= i < result.len() && result[i] == (other, held);
            if other == key {
                if i != place {
                    lemma_not_before_itself(encode_utf8(key));
                    if i < place {
                        assert(text_before(result[i].0, result[place].0));
                    } else {
                        assert(text_before(result[place].0, result[i].0));
                    }
                }
            } else if found || i < place {
                assert(members[i] == (other, held));
            } else {
                assert(members[i - 1] == (other, held));
            }
        }
        if other != key && members.contains((other, held)) {
            let i = choose|i: int| 0 <= i < members.len() && members[i] == (other, held);
            if found || i < place {
                assert(result[i] == (other, held));
            } else {
                assert(result[i + 1] == (other, held));
            }
        }
    }
}

/// Entries are put into an object one after the other, so that the last one with a key counts.
proof fn lemma_entries_become_members(
    before: Seq<(Seq<char>, JsonTree)>,
    entries: Seq<(Seq<u8>, BencodeTree)>,
)
    requires
        keys_ascend(before),
    ensures
        json_members_of(before, entries) matches Ok(members) ==> keys_ascend(members) && forall|
            key: Seq<char>,
            value: JsonTree,
        | #[trigger] members.contains((key, value)) <==> became(before, entries, key, value),
        json_members_of(before, entries) matches Ok(_) ==> forall|i: int|
            0 <= i < entries.len() ==> valid_utf8((#[trigger] entries[i]).0) && json_of(
                entries[i].1,
            ) is Ok,
        json_members_of(before, entries) matches Err(fault) ==> exists|place: int| #[trigger]
            first_entry_refused(entries, place, fault),
    decreases entries.len(),
{
    if entries.len() > 0 {
        let rest = entries.drop_first();
        let all = json_members_of(before, entries);
        if !valid_utf8(entries[0].0) || json_of(entries[0].1) is Err {
            assert(first_entry_refused(entries, 0, all->Err_0));
        } else {
            let put = decode_utf8(entries[0].0);
            let held = json_of(entries[0].1)->Ok_0;
            let between = with_member(before, put, held);
            decode_utf8_encode_utf8(entries[0].0);
            law_with_member_puts_one_value(before, put, held);
            lemma_entries_become_members(between, rest);
            if all is Err {
                let fault = all->Err_0;
                let place = choose|place: int| #[trigger] first_entry_refused(rest, place, fault);
                assert forall|i: int| 0 <= i < place + 1 implies valid_utf8(
                    (#[trigger] entries[i]).0,
                ) && json_of(entries[i].1) is Ok by {
                    if i > 0 {
                        assert(entries[i] == rest[i - 1]);
                    }
                }
                assert(first_entry_refused(entries, place + 1, fault));
            } else {
                let members = all->Ok_0;
                assert forall|i: int| 0 <= i < entries.len() implies valid_utf8(
                    (#[trigger] entries[i]).0,
                ) && json_of(entries[i].1) is Ok by {
                    if i > 0 {
                        assert(entries[i] == rest[i - 1]);
                    }
                }
                assert forall|key: Seq<char>, value: JsonTree| #[trigger]
                    members.contains((key, value)) <==> became(before, entries, key, value) by {
                    lemma_one_more_entry(before, entries, key, value);
                }
            }
        }
    } else {
        assert forall|key: Seq<char>, value: JsonTree| #[trigger]
            before.contains((key, value)) <==> became(before, entries, key, value) by {
            assert(!has_key(entries, encode_utf8(key)));
        }
    }
}

/// What an object holds after one entry and then others were put into it.
proof fn lemma_one_more_entry(
    before: Seq<(Seq<char>, JsonTree)>,
    entries: Seq<(Seq<u8>, BencodeTree)>,
    key: Seq<char>,
    value: JsonTree,
)
    requires
        keys_ascend(before),
        entries.len() > 0,
        valid_utf8(entries[0].0),
        json_of(entries[0].1) is Ok,
    ensures
        became(
            with_member(before, decode_utf8(entries[0].0), json_of(entries[0].1)->Ok_0),
            entries.drop_first(),
            key,
            value,
        ) <==> became(before, entries, key, value),
{
    let rest = entries.drop_first();
    let put = decode_utf8(entries[0].0);
    let held = json_of(entries[0].1)->Ok_0;
    let between = with_member(before, put, held);
    let bytes = encode_utf8(key);
    decode_utf8_encode_utf8(entries[0].0);
    encode_utf8_decode_utf8(key);
    encode_utf8_decode_utf8(put);
    law_with_member_puts_one_value(before, put, held);
    assert(between.contains((key, value)) <==> if key == put {
        value == held
    } else {
        before.contains((key, value))
    });
    if has_key(rest, bytes) {
        let place = choose|place: int| 0 <= place < rest.len() && (#[trigger] rest[place]).0 == bytes;
        assert(entries[place + 1].0 == bytes);
        assert(has_key(entries, bytes));
        if last_becomes(rest, key, value) {
            let last = choose|place: int| #[trigger]
                last_with_key(rest, place, bytes) && json_of(rest[place].1) == Ok::<
                    JsonTree,
                    Fault<Seq<char>>,
                >(value);
            assert forall|i: int| last + 1 < i < entries.len() implies (#[trigger] entries[i]).0
                != bytes by {
                assert(entries[i] == rest[i - 1]);
            }
            assert(last_with_key(entries, last + 1, bytes));
        }
        if last_becomes(entries, key, value) {
            let last = choose|place: int| #[trigger]
                last_with_key(entries, place, bytes) && json_of(entries[place].1) == Ok::<
                    JsonTree,
                    Fault<Seq<char>>,
                >(value);
            assert(last > 0);
            assert forall|i: int| last - 1 < i < rest.len() implies (#[trigger] rest[i]).0
                != bytes by {
                assert(rest[i] == entries[i + 1]);
            }
            assert(last_with_key(rest, last - 1, bytes));
        }
    } else {
        assert forall|i: int| 0 < i < entries.len() implies (#[trigger] entries[i]).0 != bytes by {
            assert(entries[i] == rest[i - 1]);
        }
        if key == put {
            assert(last_with_key(entries, 0, bytes));
            assert(has_key(entries, bytes));
        } else {
            assert(entries[0].0 != bytes);
            assert(!has_key(entries, bytes));
        }
    }
}

/// A dictionary whose keys all differ becomes an object of as many members.
pub proof fn law_different_keys_become_as_many_members(entries: Seq<(Seq<u8>, BencodeTree)>)
    requires
        forall|i: int, j: int|
            0 <= i < j < entries.len() ==> (#[trigger] entries[i]).0 != (#[trigger] entries[j]).0,
    ensures
        json_of(BencodeTree::Dict(entries)) matches Ok(json) ==> (json matches JsonTree::Object(
            members,
        ) && members.len() == entries.len()),
{
    lemma_different_keys_add_up(Seq::empty(), entries);
}

/// Entries with new and different keys make an object longer by as many members.
proof fn lemma_different_keys_add_up(
    before: Seq<(Seq<char>, JsonTree)>,
    entries: Seq<(Seq<u8>, BencodeTree)>,
)
    requires
        keys_ascend(before),
        forall|i: int, j: int|
            0 <= i < j < entries.len() ==> (#[trigger] entries[i]).0 != (#[trigger] entries[j]).0,
        forall|i: int, j: int|
            0 <= i < before.len() && 0 <= j < entries.len() ==> encode_utf8(
                (#[trigger] before[i]).0,
            ) != (#[trigger] entries[j]).0,
    ensures
        json_members_of(before, entries) matches Ok(members) ==> members.len() == before.len()
            + entries.len(),
    decreases entries.len(),
{
    if entries.len() > 0 && valid_utf8(entries[0].0) && json_of(entries[0].1) is Ok {
        let rest = entries.drop_first();
        let put = decode_utf8(entries[0].0);
        let held = json_of(entries[0].1)->Ok_0;
        let between = with_member(before, put, held);
        decode_utf8_encode_utf8(entries[0].0);
        law_with_member_puts_one_value(before, put, held);
        assert forall|i: int| 0 <= i < before.len() implies (#[trigger] before[i]).0 != put by {
            assert(encode_utf8(before[i].0) != entries[0].0);
        }
        assert forall|i: int, j: int| 0 <= i < j < rest.len() implies (#[trigger] rest[i]).0 != (
        #[trigger] rest[j]).0 by {
            assert(entries[i + 1].0 != entries[j + 1].0);
        }
        assert forall|i: int, j: int|
            0 <= i < between.len() && 0 <= j < rest.len() implies encode_utf8(
            (#[trigger] between[i]).0,
        ) != (#[trigger] rest[j]).0 by {
            let (key, value) = between[i];
            assert(between.contains((key, value)));
            assert(rest[j] == entries[j + 1]);
            if key == put {
                assert(entries[0].0 != entries[j + 1].0);
            } else {
                assert(before.contains((key, value)));
                let k = choose|k: int| 0 <= k < before.len() && before[k] == (key, value);
                assert(encode_utf8(before[k].0) != entries[j + 1].0);
            }
        }
        lemma_different_keys_add_up(between, rest);
    }
}

/// Byte strings are in the order of a dictionary: one comes before another if it is a beginning of
/// it, or has the smaller byte where they first differ.
pub proof fn law_byte_order(first: Seq<u8>, second: Seq<u8>, common: int)
    requires
        0 <= common <= first.len(),
        common <= second.len(),
        first.take(common) == second.take(common),
        common < first.len() && common < second.len() ==> first[common] != second[common],
    ensures
        bytes_before(first, second) <==> common < second.len() && (common == first.len()
            || first[common] < second[common]),
    decreases common,
{
    if common > 0 {
        assert(first[0] == first.take(common)[0] && second[0] == second.take(common)[0]);
        assert(first.drop_first().take(common - 1) =~= first.take(common).drop_first());
        assert(second.drop_first().take(common - 1) =~= second.take(common).drop_first());
        law_byte_order(first.drop_first(), second.drop_first(), common - 1);
    }
}

/// The keys of objects are in the order of the bytes that encode them.
pub proof fn law_key_order(members: Seq<(Seq<char>, JsonTree)>, i: int, j: int)
    requires
        keys_ascend(members),
        0 <= i < j < members.len(),
    ensures
        bytes_before(encode_utf8(members[i].0), encode_utf8(members[j].0)),
        members[i].0 != members[j].0,
{
    assert(text_before(members[i].0, members[j].0));
    lemma_not_before_itself(encode_utf8(members[i].0));
}

/// The faults of a JSON value are its own: a null, a number that is no integer, or a malformed
/// marker.
pub proof fn law_faults_of_json_values(json: JsonTree)
    ensures
        bencode_of(json) matches Err(fault) ==> fault is NullValue || fault is NotAnInteger
            || fault is OddMarker || fault is InvalidMarker,
    decreases json,
{
    match json {
        JsonTree::Array(items) => {
            law_arrays_become_lists(items);
            if let Err(fault) = bencode_of(json) {
                let place = choose|place: int| #[trigger] first_item_refused(items, place, fault);
                law_faults_of_json_values(items[place]);
            }
        },
        JsonTree::Object(members) => {
            law_objects_become_dictionaries(members);
            if let Err(fault) = bencode_of(json) {
                let place = choose|place: int| #[trigger]
                    first_member_refused(members, place, fault);
                law_faults_of_json_values(members[place].1);
            }
        },
        _ => {},
    }
}

} // verus!

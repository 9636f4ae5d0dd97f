//! What is written for each bencode value, byte by byte, and what the values themselves are.

use vstd::prelude::*;

use crate::bencode::{encoding, entries_encoding, values_encoding, Bencode, BencodeTree};
use crate::decimal::{decimal, signed_decimal};
use crate::json::{Json, JsonTree};
use crate::number_laws::{
    all_digits, law_decimal_is_worth_the_number, law_signed_decimal_has_one_sign, place_value,
};

verus! {

/// A byte string means its bytes, an integer its number, a list its values one by one, and a
/// dictionary its keys and values one by one.
pub proof fn law_bencode_values_mean_themselves(value: Bencode)
    ensures
        value matches Bencode::Integer(number) ==> value@ == BencodeTree::Integer(number),
        value matches Bencode::Bytes(bytes) ==> value@ == BencodeTree::Bytes(bytes@),
        value matches Bencode::List(values) ==> (value@ matches BencodeTree::List(trees)
            && trees.len() == values@.len() && forall|i: int|
            0 <= i < values@.len() ==> #[trigger] trees[i] == values@[i]@),
        value matches Bencode::Dict(entries) ==> (value@ matches BencodeTree::Dict(trees)
            && trees.len() == entries@.len() && forall|i: int|
            0 <= i < entries@.len() ==> #[trigger] trees[i] == (entries@[i].0@, entries@[i].1@)),
{
}

/// A JSON value means itself: an array its items one by one, an object its members one by one.
pub proof fn law_json_values_mean_themselves(value: Json)
    ensures
        value is Null ==> value@ == JsonTree::Null,
        value matches Json::Bool(flag) ==> value@ == JsonTree::Bool(flag),
        value matches Json::Number(number) ==> value@ == JsonTree::Number(number),
        value matches Json::String(text) ==> value@ == JsonTree::String(text@),
        value matches Json::Array(items) ==> (value@ matches JsonTree::Array(trees) && trees.len()
            == items@.len() && forall|i: int|
            0 <= i < items@.len() ==> #[trigger] trees[i] == items@[i]@),
        value matches Json::Object(members) ==> (value@ matches JsonTree::Object(trees)
            && trees.len() == members@.len() && forall|i: int|
            0 <= i < members@.len() ==> #[trigger] trees[i] == (members@[i].0@, members@[i].1@)),
{
}

/// An integer is written as `i`, its number in decimal with a minus sign if it is negative, and
/// `e`.
pub proof fn law_integers_are_written(number: i64)
    ensures
        encoding(BencodeTree::Integer(number)).len() >= 3,
        encoding(BencodeTree::Integer(number))[0] == 0x69,
        encoding(BencodeTree::Integer(number)).last() == 0x65,
        number >= 0 ==> {
            let written = encoding(BencodeTree::Integer(number));
            let digits = written.subrange(1, written.len() - 1);
            &&& all_digits(digits)
            &&& digits[0] == 0x30 ==> digits.len() == 1
            &&& place_value(digits) == number
        },
        number < 0 ==> {
            let written = encoding(BencodeTree::Integer(number));
            let digits = written.subrange(2, written.len() - 1);
            &&& written[1] == 0x2d
            &&& digits.len() > 0 && all_digits(digits) && digits[0] != 0x30
            &&& place_value(digits) == -number
        },
{
    let written = encoding(BencodeTree::Integer(number));
    let text = signed_decimal(number as int);
    law_signed_decimal_has_one_sign(number as int);
    if number >= 0 {
        assert(written.subrange(1, written.len() - 1) =~= text);
    } else {
        assert(written[1] == text[0]);
        assert(written.subrange(2, written.len() - 1) =~= text.skip(1));
    }
}

/// A byte string is written as its length in decimal, a colon, and each of its bytes at its place.
pub proof fn law_byte_strings_are_written(bytes: Seq<u8>)
    ensures
        ({
            let written = encoding(BencodeTree::Bytes(bytes));
            let colon = written.len() - bytes.len() - 1;
            &&& colon > 0
            &&& all_digits(written.take(colon))
            &&& written[0] == 0x30 ==> colon == 1
            &&& place_value(written.take(colon)) == bytes.len()
            &&& written[colon] == 0x3a
            &&& forall|i: int|
                0 <= i < bytes.len() ==> #[trigger] bytes[i] == written[colon + 1 + i]
        }),
{
    let written = encoding(BencodeTree::Bytes(bytes));
    let colon = written.len() - bytes.len() - 1;
    law_decimal_is_worth_the_number(bytes.len());
    assert(written.take(colon) =~= decimal(bytes.len()));
    assert(written[0] == decimal(bytes.len())[0]);
}

/// The encodings of the values of a list with one more at the end.
proof fn lemma_values_encoding_push(values: Seq<BencodeTree>, value: BencodeTree)
    ensures
        values_encoding(values.push(value)) == values_encoding(values) + encoding(value),
    decreases values.len(),
{
    let longer = values.push(value);
    if values.len() == 0 {
        assert(longer.drop_first() =~= Seq::empty());
        assert(values_encoding(longer.drop_first()) =~= Seq::empty());
        assert(values_encoding(longer) =~= values_encoding(values) + encoding(value));
    } else {
        lemma_values_encoding_push(values.drop_first(), value);
        assert(longer.drop_first() =~= values.drop_first().push(value));
        assert(values_encoding(longer) =~= values_encoding(values) + encoding(value));
    }
}

/// An empty list is written as `le`, and what a list is written as grows by the encoding of each
/// value that is put at its end, before the `e`.
pub proof fn law_lists_are_written(values: Seq<BencodeTree>, value: BencodeTree)
    ensures
        encoding(BencodeTree::List(Seq::empty())) == seq![0x6cu8, 0x65u8],
        encoding(BencodeTree::List(values.push(value))) == encoding(
            BencodeTree::List(values),
        ).drop_last() + encoding(value) + seq![0x65u8],
{
    lemma_values_encoding_push(values, value);
    assert(values_encoding(Seq::<BencodeTree>::empty()) =~= Seq::empty());
    assert(encoding(BencodeTree::List(Seq::empty())) =~= seq![0x6cu8, 0x65u8]);
    assert(encoding(BencodeTree::List(values.push(value))) =~= encoding(
        BencodeTree::List(values),
    ).drop_last() + encoding(value) + seq![0x65u8]);
}

/// The encodings of the entries of a dictionary with one more at the end.
proof fn lemma_entries_encoding_push(
    entries: Seq<(Seq<u8>, BencodeTree)>,
    key: Seq<u8>,
    value: BencodeTree,
)
    ensures
        entries_encoding(entries.push((key, value))) == entries_encoding(entries) + encoding(
            BencodeTree::Bytes(key),
        ) + encoding(value),
    decreases entries.len(),
{
    let longer = entries.push((key, value));
    if entries.len() == 0 {
        assert(longer.drop_first() =~= Seq::empty());
        assert(entries_encoding(longer.drop_first()) =~= Seq::empty());
    } else {
        lemma_entries_encoding_push(entries.drop_first(), key, value);
        assert(longer.drop_first() =~= entries.drop_first().push((key, value)));
    }
    assert(entries_encoding(longer) =~= entries_encoding(entries) + encoding(
        BencodeTree::Bytes(key),
    ) + encoding(value));
}

/// An empty dictionary is written as `de`, and what a dictionary is written as grows by each entry
/// that is put at its end, before the `e`: by its key, written as a byte string, and its value.
pub proof fn law_dictionaries_are_written(
    entries: Seq<(Seq<u8>, BencodeTree)>,
    key: Seq<u8>,
    value: BencodeTree,
)
    ensures
        encoding(BencodeTree::Dict(Seq::empty())) == seq![0x64u8, 0x65u8],
        encoding(BencodeTree::Dict(entries.push((key, value)))) == encoding(
            BencodeTree::Dict(entries),
        ).drop_last() + encoding(BencodeTree::Bytes(key)) + encoding(value) + seq![0x65u8],
{
    lemma_entries_encoding_push(entries, key, value);
    assert(entries_encoding(Seq::<(Seq<u8>, BencodeTree)>::empty()) =~= Seq::empty());
    assert(encoding(BencodeTree::Dict(Seq::empty())) =~= seq![0x64u8, 0x65u8]);
    assert(encoding(BencodeTree::Dict(entries.push((key, value)))) =~= encoding(
        BencodeTree::Dict(entries),
    ).drop_last() + encoding(BencodeTree::Bytes(key)) + encoding(value) + seq![0x65u8]);
}

} // verus!

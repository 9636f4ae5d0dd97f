//! What is read at each place of bencode input, and where reading stops.

use vstd::prelude::*;
use vstd::utf8::valid_utf8;

use crate::ascii::LOWER_E;
use crate::bencode::BencodeTree;
use crate::decimal::{signed_reading, NumberFault};
use crate::fault::Fault;
use crate::number_laws::{
    all_digits, law_digits_read_as_their_worth, law_unsigned_numbers_read, place_value,
};
use crate::outside::utf8_error_text;
use crate::parser::{
    bytes_at, dict_at, digits_end, entries_at, integer_at, law_reading_goes_forward, left_to_read,
    list_at, offset_of, value_at, values_at,
};
use crate::reading_laws::{lemma_digits_end_found, lemma_offset_found};

verus! {

/// The first byte tells what kind of value is read, and no value begins with any other byte or at
/// the end of the input.
pub proof fn law_first_byte_decides(data: Seq<u8>, position: int)
    requires
        0 <= position,
    ensures
        position >= data.len() ==> value_at(data, position) == (
            Err::<BencodeTree, Fault<Seq<char>>>(Fault::UnexpectedEnd),
            position,
        ),
        position < data.len() && data[position] == 0x69 ==> value_at(data, position) == integer_at(
            data,
            position,
        ),
        position < data.len() && data[position] == 0x6c ==> value_at(data, position) == list_at(
            data,
            position,
        ),
        position < data.len() && data[position] == 0x64 ==> value_at(data, position) == dict_at(
            data,
            position,
        ),
        position < data.len() && 0x30 <= data[position] <= 0x39 ==> value_at(data, position)
            == bytes_at(data, position),
        position < data.len() && data[position] != 0x69 && data[position] != 0x6c && data[position]
            != 0x64 && !(0x30 <= data[position] <= 0x39) ==> value_at(data, position) == (
            Err::<BencodeTree, Fault<Seq<char>>>(
                Fault::InvalidByte { byte: data[position], offset: position as usize },
            ),
            position,
        ),
{
}

/// An integer without a closing `e` is refused at the end of the input.
pub proof fn law_open_integers_are_refused(data: Seq<u8>, position: int)
    requires
        0 <= position,
        forall|i: int| position < i < data.len() ==> #[trigger] data[i] != 0x65,
    ensures
        integer_at(data, position) == (
            Err::<BencodeTree, Fault<Seq<char>>>(Fault::UnterminatedInteger),
            if position < data.len() {
                data.len() as int
            } else {
                position + 1
            },
        ),
{
    lemma_offset_missing(data, position + 1, LOWER_E);
}

/// A scan for a byte that does not occur stops at the end.
proof fn lemma_offset_missing(data: Seq<u8>, position: int, byte: u8)
    requires
        0 <= position,
        forall|i: int| position <= i < data.len() ==> #[trigger] data[i] != byte,
    ensures
        offset_of(data, position, byte) == (if position < data.len() {
            data.len() as int
        } else {
            position
        }),
    decreases data.len() - position,
{
    if position < data.len() {
        lemma_offset_missing(data, position + 1, byte);
    }
}

/// An integer is read from the text up to the first `e`, and reading goes on behind that `e`. A
/// text that is no number is refused in front of it.
pub proof fn law_integers_are_read(data: Seq<u8>, position: int, close: int)
    requires
        0 <= position < close < data.len(),
        data[close] == 0x65,
        forall|i: int| position < i < close ==> #[trigger] data[i] != 0x65,
    ensures
        ({
            let text = data.subrange(position + 1, close);
            &&& !valid_utf8(text) ==> integer_at(data, position) == (
                Err::<BencodeTree, Fault<Seq<char>>>(Fault::NotUtf8(utf8_error_text(text))),
                close,
            )
            &&& valid_utf8(text) ==> integer_at(data, position) == (match signed_reading(text) {
                Ok(number) => (
                    Ok::<BencodeTree, Fault<Seq<char>>>(BencodeTree::Integer(number)),
                    close + 1,
                ),
                Err(fault) => (Err(Fault::InvalidNumber(fault)), close),
            })
        }),
{
    lemma_offset_found(data, position + 1, LOWER_E, close);
}

/// A byte string is read from behind the colon that ends its length: each byte of it stands there
/// at its place, and there are as many as the length is worth. A length that is too great is
/// refused.
pub proof fn law_byte_strings_are_read(data: Seq<u8>, position: int, colon: int)
    requires
        0 <= position < colon < data.len(),
        all_digits(data.subrange(position, colon)),
        data[colon] == 0x3a,
    ensures
        ({
            let length = place_value(data.subrange(position, colon));
            let (read, end) = bytes_at(data, position);
            &&& length > usize::MAX ==> read == Err::<BencodeTree, Fault<Seq<char>>>(
                Fault::InvalidNumber(NumberFault::TooLarge),
            ) && end == colon
            &&& length <= usize::MAX && colon + 1 + length > usize::MAX ==> read == Err::<
                BencodeTree,
                Fault<Seq<char>>,
            >(Fault::LengthOverflow) && end == colon + 1
            &&& colon + 1 + length <= usize::MAX && colon + 1 + length > data.len() ==> read
                == Err::<BencodeTree, Fault<Seq<char>>>(Fault::PastEnd) && end == colon + 1
            &&& colon + 1 + length <= data.len() && colon + 1 + length <= usize::MAX ==> {
                &&& end == colon + 1 + length
                &&& read matches Ok(BencodeTree::Bytes(bytes)) && bytes.len() == length && forall|
                    i: int,
                |
                    0 <= i < bytes.len() ==> #[trigger] bytes[i] == data[colon + 1 + i]
            }
        }),
{
    let digits = data.subrange(position, colon);
    assert forall|i: int| position <= i < colon implies 0x30 <= #[trigger] data[i] <= 0x39 by {
        assert(data[i] == digits[i - position]);
    }
    lemma_digits_end_found(data, position, colon);
    law_unsigned_numbers_read(digits, usize::MAX as nat);
    law_digits_read_as_their_worth(
        digits,
        usize::MAX as nat,
        NumberFault::TooLarge,
    );
}

/// A length that is not closed by a colon is refused where its digits end.
pub proof fn law_faulty_lengths_are_refused(data: Seq<u8>, position: int, stop: int)
    requires
        0 <= position <= stop <= data.len(),
        all_digits(data.subrange(position, stop)),
        stop < data.len() ==> !(0x30 <= data[stop] <= 0x39) && data[stop] != 0x3a,
    ensures
        bytes_at(data, position) == (
            Err::<BencodeTree, Fault<Seq<char>>>(
                if stop < data.len() {
                    Fault::InvalidLength
                } else {
                    Fault::UnterminatedLength
                },
            ),
            stop,
        ),
{
    let digits = data.subrange(position, stop);
    assert forall|i: int| position <= i < stop implies 0x30 <= #[trigger] data[i] <= 0x39 by {
        assert(data[i] == digits[i - position]);
    }
    if stop < data.len() {
        lemma_digits_end_found(data, position, stop);
    } else {
        lemma_digits_to_the_end(data, position);
    }
}

/// A scan over digits that are followed by nothing stops at the end.
proof fn lemma_digits_to_the_end(data: Seq<u8>, position: int)
    requires
        0 <= position <= data.len(),
        forall|i: int| position <= i < data.len() ==> 0x30 <= #[trigger] data[i] <= 0x39,
    ensures
        digits_end(data, position) == data.len(),
    decreases data.len() - position,
{
    if position < data.len() {
        lemma_digits_to_the_end(data, position + 1);
    }
}

/// A colon with no length before it, and a length that begins beyond the end, are refused.
pub proof fn law_missing_lengths_are_refused(data: Seq<u8>, position: int)
    requires
        0 <= position,
        position < data.len() ==> data[position] == 0x3a,
    ensures
        bytes_at(data, position) == (
            Err::<BencodeTree, Fault<Seq<char>>>(
                if position < data.len() {
                    Fault::InvalidNumber(NumberFault::Empty)
                } else {
                    Fault::UnterminatedLength
                },
            ),
            position,
        ),
{
    if position < data.len() {
        assert(data.subrange(position, position) =~= Seq::empty());
    }
}

/// Whether the values are read one behind the other, each from one bound to the next, and none of
/// them where an `e` stands.
pub open spec fn reads_in_turn(
    data: Seq<u8>,
    bounds: Seq<int>,
    values: Seq<BencodeTree>,
) -> bool {
    &&& bounds.len() == values.len() + 1
    &&& forall|i: int|
        0 <= i < values.len() ==> value_at(data, bounds[i]) == (
            Ok::<BencodeTree, Fault<Seq<char>>>(#[trigger] values[i]),
            bounds[i + 1],
        ) && bounds[i] < data.len() && data[bounds[i]] != 0x65
}

/// Whether an `e` stands at a place of the input.
pub open spec fn closes_at(data: Seq<u8>, position: int) -> bool {
    0 <= position < data.len() && data[position] == 0x65
}

/// Whether reading a value at a place is refused with this fault, and stops here.
pub open spec fn fails_at(data: Seq<u8>, position: int, fault: Fault<Seq<char>>, end: int) -> bool {
    value_at(data, position) == (Err::<BencodeTree, Fault<Seq<char>>>(fault), end)
}

/// Whether values are read in turn from `start` on, up to an `e` behind which reading stops.
pub open spec fn closes_in_turn(
    data: Seq<u8>,
    start: int,
    bounds: Seq<int>,
    values: Seq<BencodeTree>,
    end: int,
) -> bool {
    &&& reads_in_turn(data, bounds, values)
    &&& bounds[0] == start
    &&& closes_at(data, bounds.last())
    &&& end == bounds.last() + 1
}

/// Whether values are read in turn from `start` on, up to one that is refused.
pub open spec fn fails_in_turn(
    data: Seq<u8>,
    start: int,
    bounds: Seq<int>,
    values: Seq<BencodeTree>,
    fault: Fault<Seq<char>>,
    end: int,
) -> bool {
    &&& reads_in_turn(data, bounds, values)
    &&& bounds[0] == start
    &&& !closes_at(data, bounds.last())
    &&& fails_at(data, bounds.last(), fault, end)
}

/// A list is read value by value up to the first `e` that stands where a value would begin, and
/// holds what was read there in that order. It is refused where a value is refused.
pub proof fn law_lists_are_read(data: Seq<u8>, position: int)
    requires
        0 <= position,
    ensures
        list_at(data, position).0 matches Ok(tree) ==> (tree matches BencodeTree::List(values)
            && exists|bounds: Seq<int>| #[trigger]
            closes_in_turn(data, position + 1, bounds, values, list_at(data, position).1)),
        list_at(data, position).0 matches Err(fault) ==> exists|
            bounds: Seq<int>,
            values: Seq<BencodeTree>,
        | #[trigger]
            fails_in_turn(data, position + 1, bounds, values, fault, list_at(data, position).1),
{
    lemma_values_are_read(data, position + 1);
    let (read, end) = values_at(data, position + 1);
    if read is Ok {
        let bounds = choose|bounds: Seq<int>| #[trigger]
            closes_in_turn(data, position + 1, bounds, read->Ok_0, end);
        let tree = list_at(data, position).0->Ok_0;
        assert(closes_in_turn(data, position + 1, bounds, tree->List_0, list_at(data, position).1));
    }
}

/// The values of a list are read one behind the other.
proof fn lemma_values_are_read(data: Seq<u8>, position: int)
    requires
        0 <= position,
    ensures
        values_at(data, position).0 matches Ok(values) ==> exists|bounds: Seq<int>| #[trigger]
            closes_in_turn(data, position, bounds, values, values_at(data, position).1),
        values_at(data, position).0 matches Err(fault) ==> exists|
            bounds: Seq<int>,
            values: Seq<BencodeTree>,
        | #[trigger]
            fails_in_turn(data, position, bounds, values, fault, values_at(data, position).1),
    decreases left_to_read(data, position, 3, 1),
{
    let here = seq![position];
    let (first, next) = value_at(data, position);
    let (all, end) = values_at(data, position);
    if closes_at(data, position) {
        assert(closes_in_turn(data, position, here, all->Ok_0, end));
    } else if first is Err {
        assert(fails_in_turn(data, position, here, Seq::empty(), all->Err_0, end));
    } else {
        let value = first->Ok_0;
        law_reading_goes_forward(data, position);
        lemma_values_are_read(data, next);
        let rest = values_at(data, next).0;
        if rest is Ok {
            let later = choose|bounds: Seq<int>| #[trigger]
                closes_in_turn(data, next, bounds, rest->Ok_0, end);
            lemma_one_more_read(data, position, value, later, rest->Ok_0);
            assert(closes_in_turn(data, position, here + later, all->Ok_0, end));
        } else {
            let (later, values) = choose|bounds: Seq<int>, values: Seq<BencodeTree>| #[trigger]
                fails_in_turn(data, next, bounds, values, rest->Err_0, end);
            lemma_one_more_read(data, position, value, later, values);
            assert(fails_in_turn(
                data,
                position,
                here + later,
                seq![value] + values,
                all->Err_0,
                end,
            ));
        }
    }
}

/// A value that is read in front of others is read in turn with them.
proof fn lemma_one_more_read(
    data: Seq<u8>,
    position: int,
    value: BencodeTree,
    later: Seq<int>,
    rest: Seq<BencodeTree>,
)
    requires
        reads_in_turn(data, later, rest),
        0 <= position < data.len(),
        data[position] != 0x65,
        value_at(data, position) == (Ok::<BencodeTree, Fault<Seq<char>>>(value), later[0]),
    ensures
        reads_in_turn(data, seq![position] + later, seq![value] + rest),
        (seq![position] + later)[0] == position,
        (seq![position] + later).last() == later.last(),
{
    let bounds = seq![position] + later;
    let values = seq![value] + rest;
    assert forall|i: int| 0 <= i < values.len() implies value_at(data, bounds[i]) == (
        Ok::<BencodeTree, Fault<Seq<char>>>(#[trigger] values[i]),
        bounds[i + 1],
    ) && bounds[i] < data.len() && data[bounds[i]] != 0x65 by {
        if i > 0 {
            assert(values[i] == rest[i - 1]);
            assert(bounds[i] == later[i - 1] && bounds[i + 1] == later[i]);
        }
    }
}

/// Whether a key, where no `e` stands, and a value behind it are read from one bound to the next.
pub open spec fn reads_pair(
    data: Seq<u8>,
    start: int,
    middle: int,
    end: int,
    entry: (Seq<u8>, BencodeTree),
) -> bool {
    &&& start < data.len() && data[start] != 0x65
    &&& value_at(data, start) == (
        Ok::<BencodeTree, Fault<Seq<char>>>(BencodeTree::Bytes(entry.0)),
        middle,
    )
    &&& value_at(data, middle) == (Ok::<BencodeTree, Fault<Seq<char>>>(entry.1), end)
}

/// Whether keys and values are read one behind the other, each key and each value from one bound to
/// the next, and no key where an `e` stands.
pub open spec fn reads_pairs_in_turn(
    data: Seq<u8>,
    bounds: Seq<int>,
    entries: Seq<(Seq<u8>, BencodeTree)>,
) -> bool {
    &&& bounds.len() == 2 * entries.len() + 1
    &&& forall|i: int|
        0 <= i < entries.len() ==> reads_pair(
            data,
            bounds[2 * i],
            bounds[2 * i + 1],
            bounds[2 * i + 2],
            #[trigger] entries[i],
        )
}

/// Whether reading a key and a value fails in this way: at the key, because the key is not a byte
/// string, or at the value.
pub open spec fn pair_fails(
    data: Seq<u8>,
    position: int,
    fault: Fault<Seq<char>>,
    end: int,
) -> bool {
    match value_at(data, position) {
        (Err(found), next) => found == fault && next == end,
        (Ok(BencodeTree::Bytes(_)), next) => value_at(data, next) == (
            Err::<BencodeTree, Fault<Seq<char>>>(fault),
            end,
        ),
        (Ok(_), next) => fault == Fault::<Seq<char>>::KeyNotBytes && next == end,
    }
}

/// Whether entries are read in turn from `start` on, up to an `e` behind which reading stops.
pub open spec fn closes_pairs_in_turn(
    data: Seq<u8>,
    start: int,
    bounds: Seq<int>,
    entries: Seq<(Seq<u8>, BencodeTree)>,
    end: int,
) -> bool {
    &&& reads_pairs_in_turn(data, bounds, entries)
    &&& bounds[0] == start
    &&& closes_at(data, bounds.last())
    &&& end == bounds.last() + 1
}

/// Whether entries are read in turn from `start` on, up to one that is refused.
pub open spec fn fails_pairs_in_turn(
    data: Seq<u8>,
    start: int,
    bounds: Seq<int>,
    entries: Seq<(Seq<u8>, BencodeTree)>,
    fault: Fault<Seq<char>>,
    end: int,
) -> bool {
    &&& reads_pairs_in_turn(data, bounds, entries)
    &&& bounds[0] == start
    &&& !closes_at(data, bounds.last())
    &&& pair_fails(data, bounds.last(), fault, end)
}

/// A dictionary is read as keys and values in turn, up to the first `e` that stands where a key
/// would begin, and holds what was read there in that order. It is refused where a key or a value
/// is refused, or where a key is not a byte string.
pub proof fn law_dictionaries_are_read(data: Seq<u8>, position: int)
    requires
        0 <= position,
    ensures
        dict_at(data, position).0 matches Ok(tree) ==> (tree matches BencodeTree::Dict(entries)
            && exists|bounds: Seq<int>| #[trigger]
            closes_pairs_in_turn(data, position + 1, bounds, entries, dict_at(data, position).1)),
        dict_at(data, position).0 matches Err(fault) ==> exists|
            bounds: Seq<int>,
            entries: Seq<(Seq<u8>, BencodeTree)>,
        | #[trigger]
            fails_pairs_in_turn(
                data,
                position + 1,
                bounds,
                entries,
                fault,
                dict_at(data, position).1,
            ),
{
    lemma_entries_are_read(data, position + 1);
    let (read, end) = entries_at(data, position + 1);
    if read is Ok {
        let bounds = choose|bounds: Seq<int>| #[trigger]
            closes_pairs_in_turn(data, position + 1, bounds, read->Ok_0, end);
        let tree = dict_at(data, position).0->Ok_0;
        assert(closes_pairs_in_turn(
            data,
            position + 1,
            bounds,
            tree->Dict_0,
            dict_at(data, position).1,
        ));
    }
}

/// The entries of a dictionary are read one behind the other.
proof fn lemma_entries_are_read(data: Seq<u8>, position: int)
    requires
        0 <= position,
    ensures
        entries_at(data, position).0 matches Ok(entries) ==> exists|bounds: Seq<int>| #[trigger]
            closes_pairs_in_turn(data, position, bounds, entries, entries_at(data, position).1),
        entries_at(data, position).0 matches Err(fault) ==> exists|
            bounds: Seq<int>,
            entries: Seq<(Seq<u8>, BencodeTree)>,
        | #[trigger]
            fails_pairs_in_turn(
                data,
                position,
                bounds,
                entries,
                fault,
                entries_at(data, position).1,
            ),
    decreases left_to_read(data, position, 3, 1),
{
    let here = seq![position];
    let (first, next) = value_at(data, position);
    let (all, end) = entries_at(data, position);
    if position <= data.len() {
        law_reading_goes_forward(data, position);
    }
    let failed = match first {
        Err(_) => true,
        Ok(BencodeTree::Bytes(_)) => value_at(data, next).0 is Err,
        Ok(_) => true,
    };
    if closes_at(data, position) {
        assert(closes_pairs_in_turn(data, position, here, all->Ok_0, end));
    } else if failed {
        assert(fails_pairs_in_turn(data, position, here, Seq::empty(), all->Err_0, end));
    } else {
        let key = first->Ok_0->Bytes_0;
        let (second, behind) = value_at(data, next);
        let value = second->Ok_0;
        law_reading_goes_forward(data, next);
        lemma_entries_are_read(data, behind);
        let rest = entries_at(data, behind).0;
        let both = seq![position, next];
        if rest is Ok {
            let later = choose|bounds: Seq<int>| #[trigger]
                closes_pairs_in_turn(data, behind, bounds, rest->Ok_0, end);
            lemma_one_more_pair(data, position, next, key, value, later, rest->Ok_0);
            assert(closes_pairs_in_turn(data, position, both + later, all->Ok_0, end));
        } else {
            let (later, entries) = choose|
                bounds: Seq<int>,
                entries: Seq<(Seq<u8>, BencodeTree)>,
            | #[trigger]
                fails_pairs_in_turn(data, behind, bounds, entries, rest->Err_0, end);
            lemma_one_more_pair(data, position, next, key, value, later, entries);
            assert(fails_pairs_in_turn(
                data,
                position,
                both + later,
                seq![(key, value)] + entries,
                all->Err_0,
                end,
            ));
        }
    }
}

/// A key and a value that are read in front of others are read in turn with them.
proof fn lemma_one_more_pair(
    data: Seq<u8>,
    position: int,
    next: int,
    key: Seq<u8>,
    value: BencodeTree,
    later: Seq<int>,
    rest: Seq<(Seq<u8>, BencodeTree)>,
)
    requires
        reads_pairs_in_turn(data, later, rest),
        0 <= position < data.len(),
        data[position] != 0x65,
        value_at(data, position) == (
            Ok::<BencodeTree, Fault<Seq<char>>>(BencodeTree::Bytes(key)),
            next,
        ),
        value_at(data, next) == (Ok::<BencodeTree, Fault<Seq<char>>>(value), later[0]),
    ensures
        reads_pairs_in_turn(data, seq![position, next] + later, seq![(key, value)] + rest),
        (seq![position, next] + later)[0] == position,
        (seq![position, next] + later).last() == later.last(),
{
    let bounds = seq![position, next] + later;
    let entries = seq![(key, value)] + rest;
    assert(bounds.len() == 2 * entries.len() + 1);
    assert forall|i: int| 0 <= i < entries.len() implies reads_pair(
        data,
        bounds[2 * i],
        bounds[2 * i + 1],
        bounds[2 * i + 2],
        #[trigger] entries[i],
    ) by {
        if i > 0 {
            assert(entries[i] == rest[i - 1]);
            assert(bounds[2 * i] == later[2 * (i - 1)]);
            assert(bounds[2 * i + 1] == later[2 * (i - 1) + 1]);
            assert(bounds[2 * i + 2] == later[2 * (i - 1) + 2]);
        }
    }
}

} // verus!

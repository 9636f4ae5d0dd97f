//! The bencode data format: values, what they mean, and how they are written.

use vstd::prelude::*;

use crate::ascii::{COLON, LOWER_D, LOWER_E, LOWER_I, LOWER_L};
use crate::decimal::{decimal, push_decimal, push_signed_decimal, signed_decimal};
use crate::fault::Fault;
use crate::number_laws::{all_digits, law_decimal_is_worth_the_number, place_value};

verus! {

/// A value in the bencode data format.
#[derive(Debug, PartialEq, Eq)]
pub enum Bencode {
    /// A signed integer encoded as `i<number>e`.
    Integer(i64),
    /// An arbitrary sequence of bytes.
    Bytes(Vec<u8>),
    /// An ordered collection of bencode values.
    List(Vec<Bencode>),
    /// An ordered collection of byte-string keys and bencode values.
    Dict(Vec<(Vec<u8>, Bencode)>),
}

/// What a [`Bencode`] value means: the same tree over mathematical sequences.
#[verifier::ext_equal]
pub enum BencodeTree {
    Integer(i64),
    Bytes(Seq<u8>),
    List(Seq<BencodeTree>),
    Dict(Seq<(Seq<u8>, BencodeTree)>),
}

impl View for Bencode {
    type V = BencodeTree;

    open spec fn view(&self) -> BencodeTree {
        bencode_tree(*self)
    }
}

/// The tree that a bencode value stands for.
pub open spec fn bencode_tree(value: Bencode) -> BencodeTree
    decreases value,
{
    match value {
        Bencode::Integer(number) => BencodeTree::Integer(number),
        Bencode::Bytes(bytes) => BencodeTree::Bytes(bytes@),
        Bencode::List(values) => BencodeTree::List(bencode_trees(values@)),
        Bencode::Dict(entries) => BencodeTree::Dict(bencode_entries(entries@)),
    }
}

/// The trees of a sequence of bencode values.
pub open spec fn bencode_trees(values: Seq<Bencode>) -> Seq<BencodeTree>
    decreases values,
{
    Seq::new(
        values.len(),
        |i: int|
            if 0 <= i < values.len() {
                bencode_tree(values[i])
            } else {
                BencodeTree::Integer(0)
            },
    )
}

/// The keys and trees of the entries of a dictionary.
pub open spec fn bencode_entries(entries: Seq<(Vec<u8>, Bencode)>) -> Seq<(Seq<u8>, BencodeTree)>
    decreases entries,
{
    Seq::new(
        entries.len(),
        |i: int|
            if 0 <= i < entries.len() {
                (entries[i].0@, bencode_tree(entries[i].1))
            } else {
                (Seq::empty(), BencodeTree::Integer(0))
            },
    )
}

/// How a tree is written: `i<number>e`, `<length>:<bytes>`, `l<value>...e` or
/// `d<key><value>...e`.
pub open spec fn encoding(tree: BencodeTree) -> Seq<u8>
    decreases tree,
{
    match tree {
        BencodeTree::Integer(number) => seq![LOWER_I] + signed_decimal(number as int) + seq![
            LOWER_E,
        ],
        BencodeTree::Bytes(bytes) => bytes_encoding(bytes),
        BencodeTree::List(values) => seq![LOWER_L] + values_encoding(values) + seq![LOWER_E],
        BencodeTree::Dict(entries) => seq![LOWER_D] + entries_encoding(entries) + seq![LOWER_E],
    }
}

/// How a byte string is written: its length in decimal, a colon, and the bytes themselves.
pub open spec fn bytes_encoding(bytes: Seq<u8>) -> Seq<u8> {
    decimal(bytes.len()) + seq![COLON] + bytes
}

/// The encodings of `values`, one after the other.
pub open spec fn values_encoding(values: Seq<BencodeTree>) -> Seq<u8>
    decreases values,
{
    if values.len() == 0 {
        Seq::empty()
    } else {
        encoding(values[0]) + values_encoding(values.drop_first())
    }
}

/// The encodings of the keys and values of `entries`, one after the other.
pub open spec fn entries_encoding(entries: Seq<(Seq<u8>, BencodeTree)>) -> Seq<u8>
    decreases entries,
{
    if entries.len() == 0 {
        Seq::empty()
    } else {
        bytes_encoding(entries[0].0) + encoding(entries[0].1) + entries_encoding(
            entries.drop_first(),
        )
    }
}

/// Appends a byte string in the form `<length>:<bytes>`.
fn encode_bytes(bytes: &Vec<u8>, output: &mut Vec<u8>)
    ensures
        final(output)@ == old(output)@ + bytes_encoding(bytes@),
        ({
            let colon = final(output)@.len() - bytes@.len() - 1;
            &&& old(output)@.len() < colon
            &&& final(output)@.take(old(output)@.len() as int) == old(output)@
            &&& all_digits(final(output)@.subrange(old(output)@.len() as int, colon))
            &&& place_value(final(output)@.subrange(old(output)@.len() as int, colon)) == bytes@.len()
            &&& final(output)@[old(output)@.len() as int] == 0x30 ==> colon == old(output)@.len() + 1
            &&& final(output)@[colon] == 0x3a
            &&& forall|i: int|
                0 <= i < bytes@.len() ==> #[trigger] bytes@[i] == final(output)@[colon + 1 + i]
        }),
{
    push_decimal(output, bytes.len() as u64);
    output.push(COLON);
    output.extend_from_slice(bytes.as_slice());
    proof {
        law_decimal_is_worth_the_number(bytes@.len());
        let colon = output@.len() - bytes@.len() - 1;
        let digits = decimal(bytes@.len());
        assert(output@.subrange(old(output)@.len() as int, colon) =~= digits);
        assert(output@[old(output)@.len() as int] == digits[0]);
        assert(output@.take(old(output)@.len() as int) =~= old(output)@);
    }
}

/// Encodes a bencode value into the supplied output buffer.
pub fn encode_bencode(value: &Bencode, output: &mut Vec<u8>) -> (result: Result<(), Fault<String>>)
    ensures
        result is Ok,
        final(output)@ == old(output)@ + encoding(value@),
        value matches Bencode::Bytes(bytes) ==> {
            let colon = final(output)@.len() - bytes@.len() - 1;
            &&& old(output)@.len() < colon
            &&& final(output)@.take(old(output)@.len() as int) == old(output)@
            &&& all_digits(final(output)@.subrange(old(output)@.len() as int, colon))
            &&& place_value(final(output)@.subrange(old(output)@.len() as int, colon)) == bytes@.len()
            &&& final(output)@[old(output)@.len() as int] == 0x30 ==> colon == old(output)@.len() + 1
            &&& final(output)@[colon] == 0x3a
            &&& forall|i: int|
                0 <= i < bytes@.len() ==> #[trigger] bytes@[i] == final(output)@[colon + 1 + i]
        },
    decreases value,
{
    let ghost before = output@;
    match value {
        Bencode::Integer(number) => {
            output.push(LOWER_I);
            push_signed_decimal(output, *number);
            output.push(LOWER_E);
        },
        Bencode::Bytes(bytes) => {
            encode_bytes(bytes, output);
        },
        Bencode::List(values) => {
            output.push(LOWER_L);
            let ghost trees = bencode_trees(values@);
            let mut i: usize = 0;
            assert(trees.skip(0) =~= trees);
            while i < values.len()
                invariant
                    i <= values@.len(),
                    trees == bencode_trees(values@),
                    *value == Bencode::List(*values),
                    output@ + values_encoding(trees.skip(i as int)) == before + seq![LOWER_L]
                        + values_encoding(trees),
                decreases values@.len() - i,
            {
                assert(trees.skip(i as int).drop_first() =~= trees.skip(i + 1));
                assert(decreases_to!(value->List_0 => values@[i as int]));
                encode_bencode(&values[i], output)?;
                i += 1;
            }
            output.push(LOWER_E);
        },
        Bencode::Dict(entries) => {
            output.push(LOWER_D);
            let ghost trees = bencode_entries(entries@);
            let mut i: usize = 0;
            assert(trees.skip(0) =~= trees);
            while i < entries.len()
                invariant
                    i <= entries@.len(),
                    trees == bencode_entries(entries@),
                    *value == Bencode::Dict(*entries),
                    output@ + entries_encoding(trees.skip(i as int)) == before + seq![LOWER_D]
                        + entries_encoding(trees),
                decreases entries@.len() - i,
            {
                assert(trees.skip(i as int).drop_first() =~= trees.skip(i + 1));
                // Dictionary keys are encoded as bencode byte strings.
                encode_bytes(&entries[i].0, output);
                assert(decreases_to!(value->Dict_0 => entries@[i as int]));
                encode_bencode(&entries[i].1, output)?;
                i += 1;
            }
            output.push(LOWER_E);
        },
    }
    Ok(())
}

} // verus!

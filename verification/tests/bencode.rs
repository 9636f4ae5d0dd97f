use bencode_json::bencode::{encode_bencode, Bencode};
use bencode_json::decimal::{
    append_decimal, push_decimal, push_signed_decimal, read_i64, read_usize, NumberFault,
};
use bencode_json::fault::Fault;
use bencode_json::parser::Parser;

fn encoded(value: &Bencode) -> Vec<u8> {
    let mut output = Vec::new();
    encode_bencode(value, &mut output).unwrap();
    output
}

fn parsed(data: &[u8]) -> Result<(Bencode, bool), Fault<String>> {
    let mut parser = Parser::new(data);
    let value = parser.parse_value()?;
    Ok((value, parser.is_at_end()))
}

fn complete(data: &[u8]) -> Bencode {
    let (value, at_end) = parsed(data).unwrap();
    assert!(at_end);
    value
}

fn refused(data: &[u8]) -> Fault<String> {
    parsed(data).unwrap_err()
}

fn bytes(text: &str) -> Bencode {
    Bencode::Bytes(text.as_bytes().to_vec())
}

fn sample() -> Bencode {
    Bencode::Dict(vec![
        (b"age".to_vec(), Bencode::Integer(-42)),
        (
            b"list".to_vec(),
            Bencode::List(vec![
                bytes("spam"),
                Bencode::Bytes(vec![0xff, 0x00]),
                Bencode::List(vec![]),
                Bencode::Dict(vec![]),
            ]),
        ),
        (b"".to_vec(), bytes("")),
    ])
}

#[test]
fn integers_are_encoded() {
    assert_eq!(encoded(&Bencode::Integer(0)), b"i0e");
    assert_eq!(encoded(&Bencode::Integer(42)), b"i42e");
    assert_eq!(encoded(&Bencode::Integer(-7)), b"i-7e");
    assert_eq!(encoded(&Bencode::Integer(i64::MAX)), b"i9223372036854775807e");
    assert_eq!(encoded(&Bencode::Integer(i64::MIN)), b"i-9223372036854775808e");
}

#[test]
fn byte_strings_are_encoded() {
    assert_eq!(encoded(&bytes("")), b"0:");
    assert_eq!(encoded(&bytes("spam")), b"4:spam");
    assert_eq!(encoded(&Bencode::Bytes(vec![0xff, 0x00])), b"2:\xff\x00");
    assert_eq!(encoded(&bytes("0123456789")), b"10:0123456789");
}

#[test]
fn containers_are_encoded() {
    assert_eq!(encoded(&sample()), b"d3:agei-42e4:listl4:spam2:\xff\x00ledee0:0:e");
    assert_eq!(encoded(&Bencode::List(vec![])), b"le");
    assert_eq!(encoded(&Bencode::Dict(vec![])), b"de");
}

#[test]
fn encoding_appends_to_the_output() {
    let mut output = b"x".to_vec();
    encode_bencode(&Bencode::Integer(1), &mut output).unwrap();
    encode_bencode(&bytes("a"), &mut output).unwrap();
    assert_eq!(output, b"xi1e1:a");
}

#[test]
fn what_is_written_reads_back() {
    for value in [
        sample(),
        Bencode::Integer(i64::MIN),
        Bencode::Integer(i64::MAX),
        bytes(""),
        Bencode::List(vec![sample(), sample()]),
    ] {
        assert_eq!(complete(&encoded(&value)), value);
    }
}

#[test]
fn reading_stops_behind_the_value() {
    let mut parser = Parser::new(b"i1e4:spamle");
    assert!(parser.peek_is(b'i'));
    assert_eq!(parser.parse_value(), Ok(Bencode::Integer(1)));
    assert!(!parser.is_at_end());
    assert!(parser.peek_is(b'4'));
    assert_eq!(parser.parse_value(), Ok(bytes("spam")));
    assert_eq!(parser.parse_value(), Ok(Bencode::List(vec![])));
    assert!(parser.is_at_end());
    assert!(!parser.peek_is(b'e'));
    assert_eq!(parser.parse_value(), Err(Fault::UnexpectedEnd));
}

#[test]
fn reading_does_not_depend_on_what_stands_around() {
    let mut alone = Parser::new(b"d1:ai1ee");
    let mut inside = Parser::new(b"i0ed1:ai1eexyz");
    inside.parse_value().unwrap();
    assert_eq!(alone.parse_value().unwrap(), inside.parse_value().unwrap());
    assert!(inside.peek_is(b'x'));
}

#[test]
fn integers_are_read_leniently() {
    assert_eq!(complete(b"i+5e"), Bencode::Integer(5));
    assert_eq!(complete(b"i007e"), Bencode::Integer(7));
    assert_eq!(complete(b"i-0e"), Bencode::Integer(0));
    assert_eq!(complete(b"003:abc"), bytes("abc"));
}

#[test]
fn encodings_are_the_shortest_inputs() {
    for data in [
        &b"i0e"[..], b"i-0e", b"i+5e", b"i5e", b"i-5e", b"i-05e", b"i007e", b"0:", b"00:", b"3:abc",
        b"03:abc", b"le", b"de", b"li01ee", b"li1ee", b"d01:a1:be", b"d1:a1:be", b"d1:ai+1ee",
    ] {
        let shortest = encoded(&complete(data));
        assert!(data.len() >= 2);
        assert!(shortest.len() <= data.len());
        assert_eq!(shortest.len() == data.len(), shortest == data);
    }
}

#[test]
fn dictionaries_keep_order_and_duplicates() {
    assert_eq!(
        complete(b"d1:bi1e1:ai2e1:bi3ee"),
        Bencode::Dict(vec![
            (b"b".to_vec(), Bencode::Integer(1)),
            (b"a".to_vec(), Bencode::Integer(2)),
            (b"b".to_vec(), Bencode::Integer(3)),
        ])
    );
}

#[test]
fn faulty_integers_are_refused() {
    assert_eq!(refused(b"i42"), Fault::UnterminatedInteger);
    assert_eq!(refused(b"i"), Fault::UnterminatedInteger);
    assert_eq!(refused(b"ie"), Fault::InvalidNumber(NumberFault::Empty));
    assert_eq!(refused(b"i-e"), Fault::InvalidNumber(NumberFault::InvalidDigit));
    assert_eq!(refused(b"i4.2e"), Fault::InvalidNumber(NumberFault::InvalidDigit));
    assert_eq!(refused(b"i9223372036854775808e"), Fault::InvalidNumber(NumberFault::TooLarge));
    assert_eq!(refused(b"i-9223372036854775809e"), Fault::InvalidNumber(NumberFault::TooSmall));
    assert_eq!(
        refused(b"i\xffe"),
        Fault::NotUtf8("invalid utf-8 sequence of 1 bytes from index 0".to_owned())
    );
}

#[test]
fn faulty_byte_strings_are_refused() {
    assert_eq!(refused(b"4"), Fault::UnterminatedLength);
    assert_eq!(refused(b"4x:spam"), Fault::InvalidLength);
    assert_eq!(refused(b"5:spam"), Fault::PastEnd);
    assert_eq!(refused(b"18446744073709551615:x"), Fault::LengthOverflow);
    assert_eq!(
        refused(b"18446744073709551616:x"),
        Fault::InvalidNumber(NumberFault::TooLarge)
    );
    assert_eq!(
        Parser::new(b":x").parse_bytes(),
        Err(Fault::InvalidNumber(NumberFault::Empty))
    );
}

#[test]
fn faulty_containers_are_refused() {
    assert_eq!(refused(b"l"), Fault::UnexpectedEnd);
    assert_eq!(refused(b"li1e"), Fault::UnexpectedEnd);
    assert_eq!(refused(b"d1:a"), Fault::UnexpectedEnd);
    assert_eq!(refused(b"d1:ae"), Fault::InvalidByte { byte: b'e', offset: 4 });
    assert_eq!(refused(b"di1ei2ee"), Fault::KeyNotBytes);
    assert_eq!(refused(b"lx"), Fault::InvalidByte { byte: b'x', offset: 1 });
    assert_eq!(refused(b""), Fault::UnexpectedEnd);
}

#[test]
fn parts_are_parsed_at_the_position() {
    assert_eq!(Parser::new(b"i-3e").parse_integer(), Ok(Bencode::Integer(-3)));
    assert_eq!(Parser::new(b"li1ee").parse_list(), Ok(Bencode::List(vec![Bencode::Integer(1)])));
    assert_eq!(
        Parser::new(b"d1:a0:e").parse_dict(),
        Ok(Bencode::Dict(vec![(b"a".to_vec(), bytes(""))]))
    );
}

fn number_fault(message: String) -> NumberFault {
    for fault in [
        NumberFault::Empty,
        NumberFault::InvalidDigit,
        NumberFault::TooLarge,
        NumberFault::TooSmall,
    ] {
        if fault.message() == message {
            return fault;
        }
    }
    panic!("no such fault: {}", message)
}

#[test]
fn numbers_are_read_as_the_standard_library_reads_them() {
    for text in [
        "", "+", "-", "0", "-0", "+0", "00012", "+7", "-7", "--7", "+-7", "1 ", " 1", "1e3", "x",
        "9223372036854775807", "9223372036854775808", "-9223372036854775808",
        "-9223372036854775809", "18446744073709551615", "18446744073709551616",
        "99999999999999999999999", "-99999999999999999999999", "99999999999999999999999x",
        "x99999999999999999999999", "000000000000000000000000000001", "\u{663}",
    ] {
        assert_eq!(
            read_i64(text.as_bytes()),
            text.parse::<i64>().map_err(|error| number_fault(error.to_string())),
            "{}", text
        );
        // Lengths have no sign.
        if !text.starts_with('+') {
            assert_eq!(
                read_usize(text.as_bytes()),
                text.parse::<usize>().map_err(|error| number_fault(error.to_string())),
                "{}", text
            );
        }
    }
    assert_eq!(read_usize(b"+7"), Err(NumberFault::InvalidDigit));
}

#[test]
fn numbers_are_written_as_the_standard_library_writes_them() {
    for number in [0u64, 9, 10, 99, 100, 12345, u64::MAX] {
        let mut output = Vec::new();
        push_decimal(&mut output, number);
        assert_eq!(output, number.to_string().as_bytes());
        let mut text = "n=".to_owned();
        append_decimal(&mut text, number);
        assert_eq!(text, format!("n={}", number));
    }
    for number in [0i64, -1, 1, -10, i64::MIN, i64::MAX] {
        let mut output = Vec::new();
        push_signed_decimal(&mut output, number);
        assert_eq!(output, number.to_string().as_bytes());
        assert_eq!(read_i64(&output), Ok(number));
    }
}

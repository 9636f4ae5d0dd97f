use bencode_json::bencode::{encode_bencode, Bencode};
use bencode_json::convert::{
    bencode_to_json, bencode_to_json_value, bencode_to_json_value_bytes, convert_detected, detect,
    encode_read, end_line, json_from_value, json_to_bencode, json_to_bencode_bytes, json_to_bencode_value,
    read_json, sniff_and_convert, Detected,
};
use bencode_json::decimal::NumberFault;
use bencode_json::fault::Fault;
use bencode_json::json::Json;
use bencode_json::marker::{binary_marker, parse_binary_marker};
use serde_json::Value;

fn text(value: &str) -> Json {
    Json::String(value.to_owned())
}

fn bytes(value: &str) -> Bencode {
    Bencode::Bytes(value.as_bytes().to_vec())
}

fn encoded(value: &Bencode) -> Vec<u8> {
    let mut output = Vec::new();
    encode_bencode(value, &mut output).unwrap();
    output
}

fn from_json(json: &str) -> Result<String, String> {
    match json_to_bencode(json.as_bytes()) {
        Ok(output) => Ok(String::from_utf8(output).unwrap()),
        Err(fault) => Err(fault.message()),
    }
}

fn from_bencode(data: &[u8]) -> Result<String, String> {
    match bencode_to_json(data) {
        Ok(output) => Ok(String::from_utf8(output).unwrap()),
        Err(fault) => Err(fault.message()),
    }
}

#[test]
fn scalars_become_bencode() {
    assert_eq!(json_to_bencode_value(&Json::Bool(false)), Ok(Bencode::Integer(0)));
    assert_eq!(json_to_bencode_value(&Json::Bool(true)), Ok(Bencode::Integer(1)));
    assert_eq!(json_to_bencode_value(&Json::Number(Some(-5))), Ok(Bencode::Integer(-5)));
    assert_eq!(json_to_bencode_value(&text("spam")), Ok(bytes("spam")));
    assert_eq!(json_to_bencode_value(&text("[binary: ff00AB]")), Ok(Bencode::Bytes(vec![0xff, 0x00, 0xab])));
    assert_eq!(json_to_bencode_value(&Json::Null), Err(Fault::NullValue));
    assert_eq!(json_to_bencode_value(&Json::Number(None)), Err(Fault::NotAnInteger));
}

#[test]
fn containers_become_bencode() {
    let json = Json::Object(vec![
        ("b".to_owned(), Json::Array(vec![Json::Number(Some(1)), text("x")])),
        ("a".to_owned(), Json::Object(vec![])),
    ]);
    assert_eq!(
        json_to_bencode_value(&json),
        Ok(Bencode::Dict(vec![
            (b"b".to_vec(), Bencode::List(vec![Bencode::Integer(1), bytes("x")])),
            (b"a".to_vec(), Bencode::Dict(vec![])),
        ]))
    );
    assert_eq!(json_to_bencode_bytes(&json), Ok(b"d1:bli1e1:xe1:adee".to_vec()));
}

#[test]
fn the_first_fault_counts() {
    assert_eq!(
        json_to_bencode_value(&Json::Array(vec![Json::Number(None), Json::Null])),
        Err(Fault::NotAnInteger)
    );
    assert_eq!(
        json_to_bencode_bytes(&Json::Object(vec![
            ("a".to_owned(), Json::Null),
            ("b".to_owned(), Json::Number(None)),
        ])),
        Err(Fault::NullValue)
    );
}

#[test]
fn markers_are_read() {
    assert_eq!(parse_binary_marker("[binary: ff00ab]"), Ok(Some(vec![0xff, 0x00, 0xab])));
    assert_eq!(parse_binary_marker("[binary:FF]"), Ok(Some(vec![0xff])));
    assert_eq!(parse_binary_marker("[binary:\u{3000}\tff \n]"), Ok(Some(vec![0xff])));
    assert_eq!(parse_binary_marker("[binary:]"), Ok(Some(vec![])));
    assert_eq!(parse_binary_marker("[binary: ]"), Ok(Some(vec![])));
    assert_eq!(parse_binary_marker(""), Ok(None));
    assert_eq!(parse_binary_marker("[binary:"), Ok(None));
    assert_eq!(parse_binary_marker("[binary: ff"), Ok(None));
    assert_eq!(parse_binary_marker(" [binary: ff]"), Ok(None));
    assert_eq!(parse_binary_marker("[Binary: ff]"), Ok(None));
    assert_eq!(parse_binary_marker("[binary: ff] "), Ok(None));
}

#[test]
fn malformed_markers_are_refused() {
    assert_eq!(
        parse_binary_marker("[binary: fff]"),
        Err(Fault::OddMarker("[binary: fff]".to_owned()))
    );
    assert_eq!(
        parse_binary_marker("[binary: f\u{e9}]"),
        Err(Fault::OddMarker("[binary: f\u{e9}]".to_owned()))
    );
    assert_eq!(
        parse_binary_marker("[binary: f-]"),
        Err(Fault::InvalidMarker { marker: "[binary: f-]".to_owned(), character: '-', index: 1 })
    );
    assert_eq!(
        parse_binary_marker("[binary: ff 0]"),
        Err(Fault::InvalidMarker { marker: "[binary: ff 0]".to_owned(), character: ' ', index: 2 })
    );
    assert_eq!(
        parse_binary_marker("[binary: \u{e9}]"),
        Err(Fault::InvalidMarker {
            marker: "[binary: \u{e9}]".to_owned(),
            character: '\u{c3}',
            index: 0
        })
    );
}

#[test]
fn markers_read_back() {
    for bytes in [vec![], vec![0xff], vec![0x00, 0x7f, 0x80, 0xab], (0..=255).collect::<Vec<u8>>()] {
        assert_eq!(parse_binary_marker(&binary_marker(&bytes)), Ok(Some(bytes)));
    }
    assert_eq!(binary_marker(&[0xff, 0x00, 0xab]), "[binary: ff00ab]");
}

#[test]
fn json_text_becomes_bencode() {
    assert_eq!(from_json("{\"b\": [1, true, 'x'], a: -2,}"), Ok("d1:ai-2e1:bli1ei1e1:xee".to_owned()));
    assert_eq!(from_json("// nothing\n[]"), Ok("le".to_owned()));
    assert_eq!(from_json("\"\u{e9}\""), Ok("2:\u{e9}".to_owned()));
    assert_eq!(from_json("-9223372036854775808"), Ok("i-9223372036854775808e".to_owned()));
    assert_eq!(from_json("0x10"), Ok("i16e".to_owned()));
    assert_eq!(json_to_bencode(b"'[binary: ff]'"), Ok(b"1:\xff".to_vec()));
}

#[test]
fn keys_come_out_in_order_and_the_last_duplicate_counts() {
    assert_eq!(from_json("{b: 1, '': 2, aa: 3, a: 4, B: 5}"), Ok("d0:i2e1:Bi5e1:ai4e2:aai3e1:bi1ee".to_owned()));
    assert_eq!(from_json("{a: 1, b: 2, a: 3}"), Ok("d1:ai3e1:bi2ee".to_owned()));
    // By their bytes, U+FFFF comes before U+10000.
    assert_eq!(
        from_json("{'\u{10000}': 1, '\u{ffff}': 2}"),
        Ok("d3:\u{ffff}i2e4:\u{10000}i1ee".to_owned())
    );
}

#[test]
fn unsuitable_json_is_refused() {
    assert_eq!(from_json("null"), Err("null is not representable in bencode".to_owned()));
    assert_eq!(from_json("[1, null]"), Err("null is not representable in bencode".to_owned()));
    assert_eq!(from_json("1.5"), Err("bencode only supports signed integer numbers".to_owned()));
    assert_eq!(from_json("1.0"), Err("bencode only supports signed integer numbers".to_owned()));
    assert_eq!(from_json("9223372036854775808"), Err("error parsing integer".to_owned()));
    assert_eq!(
        from_json("'[binary: f]'"),
        Err("binary marker has an odd number of hex digits: [binary: f]".to_owned())
    );
    assert_eq!(
        from_json("'[binary: f\"]'"),
        Err("invalid binary marker \"[binary: f\\\"]\": Invalid character '\"' at position 1".to_owned())
    );
    assert!(matches!(json_to_bencode(b"{"), Err(Fault::InvalidJson(message)) if message.contains("expected")));
    assert_eq!(
        json_to_bencode(b"'\xff'"),
        Err(Fault::NotUtf8("invalid utf-8 sequence of 1 bytes from index 1".to_owned()))
    );
    assert!(matches!(json_to_bencode(b""), Err(Fault::InvalidJson(_))));
}

#[test]
fn what_was_read_is_encoded() {
    assert_eq!(encode_read(Ok(Json::Bool(true))), Ok(b"i1e".to_vec()));
    assert_eq!(encode_read(Ok(Json::Null)), Err(Fault::NullValue));
    assert_eq!(encode_read(Err("no".to_owned())), Err(Fault::InvalidJson("no".to_owned())));
}

#[test]
fn nesting_beyond_the_stack_is_refused() {
    let data = vec![b'['; 1_000_000];
    for result in [
        json_to_bencode(&data),
        sniff_and_convert(&data).map(|(_, output)| output),
    ] {
        assert!(matches!(
            result,
            Err(Fault::InvalidJson(message)) if message.ends_with("stack limit reached")
        ));
    }
}

#[test]
fn outside_values_are_taken_over() {
    let read: Value = json5::from_str("{b: [null, true, 2.5, 7], a: 'x'}").unwrap();
    assert_eq!(
        json_from_value(&read),
        Json::Object(vec![
            ("a".to_owned(), text("x")),
            (
                "b".to_owned(),
                Json::Array(vec![
                    Json::Null,
                    Json::Bool(true),
                    Json::Number(None),
                    Json::Number(Some(7)),
                ])
            ),
        ])
    );
    assert_eq!(json_from_value(&Value::from(u64::MAX)), Json::Number(None));
    assert_eq!(json_from_value(&Value::from(i64::MAX as u64)), Json::Number(Some(i64::MAX)));
}

#[test]
fn bencode_values_become_json() {
    assert_eq!(bencode_to_json_value(&Bencode::Integer(-5)), Ok(Value::from(-5)));
    assert_eq!(bencode_to_json_value(&bytes("sp\u{e9}m")), Ok(Value::from("sp\u{e9}m")));
    assert_eq!(
        bencode_to_json_value(&Bencode::Bytes(vec![0xff, 0x00, 0xab])),
        Ok(Value::from("[binary: ff00ab]"))
    );
    assert_eq!(
        bencode_to_json_value(&Bencode::List(vec![Bencode::Integer(1), bytes("")])),
        Ok(Value::from(vec![Value::from(1), Value::from("")]))
    );
    assert_eq!(
        bencode_to_json_value(&Bencode::Dict(vec![(vec![0xff], Bencode::Integer(1))])),
        Err(Fault::KeyNotUtf8)
    );
    assert_eq!(
        bencode_to_json_value(&Bencode::List(vec![Bencode::Dict(vec![
            (b"a".to_vec(), Bencode::Dict(vec![(vec![0x80], bytes(""))])),
        ])])),
        Err(Fault::KeyNotUtf8)
    );
}

#[test]
fn bencode_becomes_pretty_json() {
    assert_eq!(from_bencode(b"i42e"), Ok("42\n".to_owned()));
    assert_eq!(from_bencode(b"le"), Ok("[]\n".to_owned()));
    assert_eq!(from_bencode(b"de"), Ok("{}\n".to_owned()));
    assert_eq!(
        from_bencode(b"d1:bli1e1:xe1:a2:\xff\x00e"),
        Ok("{\n  \"a\": \"[binary: ff00]\",\n  \"b\": [\n    1,\n    \"x\"\n  ]\n}\n".to_owned())
    );
    assert_eq!(from_bencode(b"3:\"\\\n"), Ok("\"\\\"\\\\\\n\"\n".to_owned()));
    assert_eq!(
        bencode_to_json_value_bytes(&Bencode::List(vec![Bencode::Integer(1)])),
        Ok(b"[\n  1\n]\n".to_vec())
    );
    assert_eq!(end_line(b"[]".to_vec()), b"[]\n");
}

#[test]
fn strict_json_is_read() {
    assert_eq!(
        read_json(b"{\"b\": [null, true, -7, 1.5], \"a\": \"x\"}\n"),
        Ok(Json::Object(vec![
            ("a".to_owned(), text("x")),
            (
                "b".to_owned(),
                Json::Array(vec![
                    Json::Null,
                    Json::Bool(true),
                    Json::Number(Some(-7)),
                    Json::Number(None),
                ])
            ),
        ]))
    );
    assert!(matches!(read_json(b"{a: 1}"), Err(Fault::InvalidJson(message)) if message.contains("key must be a string")));
    assert!(matches!(read_json(b""), Err(Fault::InvalidJson(_))));
}

#[test]
fn output_reads_back_as_strict_json() {
    for value in [
        Bencode::Integer(i64::MIN),
        Bencode::Integer(0),
        bytes("\u{2028}\u{2029} \u{0}\u{b}\u{1f}\u{7f}\u{85}\" \\ / \r\n\t \u{10ffff}"),
        Bencode::Bytes(vec![0xff]),
        Bencode::List(vec![]),
        Bencode::Dict(vec![
            ("\u{2028}\"".as_bytes().to_vec(), bytes("\n")),
            (b"".to_vec(), Bencode::List(vec![Bencode::Integer(-1), Bencode::Dict(vec![])])),
            (b"".to_vec(), Bencode::Integer(i64::MAX)),
        ]),
    ] {
        let json = json_from_value(&bencode_to_json_value(&value).unwrap());
        let output = bencode_to_json(&encoded(&value)).unwrap();
        assert_eq!(output[output.len() - 1], b'\n');
        assert_ne!(output[output.len() - 2], b'\n');
        assert_eq!(read_json(&output), Ok(json));
        assert_eq!(detect(&output), Detected::Json);
    }
}

#[test]
fn deep_output_reads_back_up_to_a_limit() {
    for (levels, readable) in [(1, true), (99, true), (127, true), (128, false)] {
        for (open, close) in [("l", "e"), ("d1:a", "e")] {
            let data = format!("{}i1e{}", open.repeat(levels), close.repeat(levels));
            let output = bencode_to_json(data.as_bytes()).unwrap();
            match read_json(&output) {
                Ok(json) => {
                    assert!(readable);
                    assert_eq!(json_to_bencode_bytes(&json), Ok(data.into_bytes()));
                }
                Err(fault) => {
                    assert!(!readable);
                    assert!(fault.message().contains("recursion limit exceeded"));
                }
            }
        }
    }
}

#[test]
fn integers_are_written_in_decimal() {
    assert_eq!(bencode_to_json(b"i+007e"), Ok(b"7\n".to_vec()));
    assert_eq!(bencode_to_json(b"i-0e"), Ok(b"0\n".to_vec()));
    assert_eq!(
        bencode_to_json_value_bytes(&Bencode::Integer(i64::MIN)),
        Ok(b"-9223372036854775808\n".to_vec())
    );
}

#[test]
fn the_last_of_duplicate_keys_counts() {
    assert_eq!(from_bencode(b"d1:bi1e1:ai2e1:bi3ee"), Ok("{\n  \"a\": 2,\n  \"b\": 3\n}\n".to_owned()));
}

#[test]
fn unsuitable_bencode_is_refused() {
    assert_eq!(from_bencode(b"i1ei2e"), Err("trailing bytes after the top-level bencode value".to_owned()));
    assert_eq!(from_bencode(b"i1e\n"), Err("trailing bytes after the top-level bencode value".to_owned()));
    assert_eq!(from_bencode(b""), Err("unexpected end of bencode data".to_owned()));
    assert_eq!(from_bencode(b"\nx"), Err("invalid bencode byte 0x0a at offset 0".to_owned()));
    assert_eq!(from_bencode(b"li1234567eXe"), Err("invalid bencode byte 0x58 at offset 10".to_owned()));
    assert_eq!(from_bencode(b"i1"), Err("unterminated bencode integer".to_owned()));
    assert_eq!(from_bencode(b"ixe"), Err("invalid digit found in string".to_owned()));
    assert_eq!(from_bencode(b"ie"), Err("cannot parse integer from empty string".to_owned()));
    assert_eq!(
        from_bencode(b"i99999999999999999999e"),
        Err("number too large to fit in target type".to_owned())
    );
    assert_eq!(
        from_bencode(b"i-99999999999999999999e"),
        Err("number too small to fit in target type".to_owned())
    );
    assert_eq!(
        from_bencode(b"i\xc3e"),
        Err("incomplete utf-8 byte sequence from index 0".to_owned())
    );
    assert_eq!(from_bencode(b"1x"), Err("invalid byte-string length".to_owned()));
    assert_eq!(from_bencode(b"1"), Err("unterminated byte-string length".to_owned()));
    assert_eq!(from_bencode(b"18446744073709551615:"), Err("byte-string length overflow".to_owned()));
    assert_eq!(from_bencode(b"1:"), Err("byte-string extends past end of input".to_owned()));
    assert_eq!(from_bencode(b"dlei1ee"), Err("bencode dictionary key is not a byte string".to_owned()));
    assert_eq!(from_bencode(b"d1:\xffi1ee"), Err("bencode dictionary key is not valid UTF-8".to_owned()));
}

#[test]
fn messages_describe_outside_faults_in_their_own_words() {
    assert_eq!(Fault::InvalidJson("a".to_owned()).message(), "a");
    assert_eq!(Fault::UnwritableJson("b".to_owned()).message(), "b");
    assert_eq!(Fault::NotUtf8("c".to_owned()).message(), "c");
    assert_eq!(
        Fault::<String>::InvalidNumber(NumberFault::InvalidDigit).message(),
        "invalid digit found in string"
    );
    assert_eq!(
        Fault::InvalidMarker { marker: "\u{e9}\n".to_owned(), character: '\'', index: 120 }.message(),
        "invalid binary marker \"\u{e9}\\n\": Invalid character '\\'' at position 120"
    );
}

#[test]
fn bencode_survives_json() {
    let value = Bencode::Dict(vec![
        (b"".to_vec(), Bencode::Integer(i64::MIN)),
        (b"a".to_vec(), Bencode::Bytes(vec![0xff, 0xfe, 0x00])),
        (
            "\u{e9}".as_bytes().to_vec(),
            Bencode::List(vec![
                bytes("tab\t, quote \", backslash \\, bell \u{7}, delete \u{7f}, \u{1f600}"),
                bytes("[binary"),
                Bencode::Dict(vec![]),
                Bencode::List(vec![]),
                Bencode::Integer(i64::MAX),
            ]),
        ),
    ]);
    let bencode = encoded(&value);
    let json = bencode_to_json(&bencode).unwrap();
    assert_eq!(json_to_bencode(&json), Ok(bencode.clone()));
    let value = bencode_to_json_value(&value).unwrap();
    assert_eq!(json_to_bencode_bytes(&json_from_value(&value)), Ok(bencode));
}

#[test]
fn some_bencode_does_not_survive_json() {
    // A text that looks like a marker.
    let json = bencode_to_json(b"12:[binary: ff]").unwrap();
    assert_eq!(json_to_bencode(&json), Ok(b"1:\xff".to_vec()));
    // Keys out of order.
    let json = bencode_to_json(b"d1:bi1e1:ai2ee").unwrap();
    assert_eq!(json_to_bencode(&json), Ok(b"d1:ai2e1:bi1ee".to_vec()));
    // A line separator, which the JSON text holds as it is.
    let json = bencode_to_json("3:\u{2028}".as_bytes()).unwrap();
    assert!(matches!(json_to_bencode(&json), Err(Fault::InvalidJson(_))));
}

#[test]
fn plain_json_survives_bencode() {
    let json = "{\n  \"a\": [\n    1,\n    \"[binary: ff]\"\n  ],\n  \"b\": {}\n}\n";
    let bencode = json_to_bencode(json.as_bytes()).unwrap();
    assert_eq!(bencode, b"d1:ali1e1:\xffe1:bdee");
    assert_eq!(from_bencode(&bencode), Ok(json.to_owned()));
    // A marker for bytes that are text becomes that text.
    assert_eq!(from_bencode(&json_to_bencode(b"'[binary: 41]'").unwrap()), Ok("\"A\"\n".to_owned()));
}

#[test]
fn any_writing_of_the_json_converts_back() {
    for json in ["{\"a\":[1]}", "{a: [1,],}", "/* x */ {'a' : [+1]}"] {
        assert_eq!(from_json(json), Ok("d1:ali1eee".to_owned()));
    }
}

#[test]
fn formats_are_detected() {
    assert_eq!(detect(b"i1e"), Detected::Bencode(Bencode::Integer(1)));
    assert_eq!(detect(b"i1e "), Detected::Json);
    assert_eq!(detect(b""), Detected::Json);
    assert_eq!(detect(b"{}"), Detected::Json);
    assert_eq!(detect(b"12"), Detected::Json);
    assert_eq!(detect(b"[1]"), Detected::Json);
}

#[test]
fn input_of_unknown_format_is_converted() {
    assert_eq!(sniff_and_convert(b"4:spam"), Ok(("json", b"\"spam\"\n".to_vec())));
    assert_eq!(sniff_and_convert(b"\"spam\""), Ok(("bencode", b"4:spam".to_vec())));
    assert_eq!(sniff_and_convert(b"12"), Ok(("bencode", b"i12e".to_vec())));
    assert_eq!(sniff_and_convert(b"d1:\xff0:e"), Err(Fault::KeyNotUtf8));
    assert_eq!(sniff_and_convert(b"null"), Err(Fault::NullValue));
    assert!(matches!(sniff_and_convert(b"i1e\n"), Err(Fault::InvalidJson(_))));
    assert_eq!(convert_detected(&Detected::Json, b"[]"), Ok(("bencode", b"le".to_vec())));
    assert_eq!(
        convert_detected(&Detected::Bencode(Bencode::List(vec![])), b"le"),
        Ok(("json", b"[]\n".to_vec()))
    );
}

#[test]
fn output_converts_back() {
    for json in ["{a: true}", "[]", "'x'", "7"] {
        let (format, bencode) = sniff_and_convert(json.as_bytes()).unwrap();
        assert_eq!(format, "bencode");
        let (format, text) = sniff_and_convert(&bencode).unwrap();
        assert_eq!(format, "json");
        assert_eq!(sniff_and_convert(&text), Ok(("bencode", bencode)));
    }
}

use bencode_json::cli::{
    check_stdin, check_terminal, convert, format_notice, mode_named, mode_notice, plan, usage,
    Format, Mode, Outcome, Plan, Source, UsageFault,
};
use bencode_json::fault::Fault;

fn planned(arguments: &[Option<&str>]) -> Result<Plan, UsageFault<String>> {
    let arguments: Vec<Option<String>> =
        arguments.iter().map(|argument| argument.map(str::to_owned)).collect();
    plan(&arguments)
}

#[test]
fn arguments_are_understood() {
    assert_eq!(planned(&[]), Ok(Plan { mode: None, source: Source::Stdin }));
    assert_eq!(
        planned(&[Some("json2bencode")]),
        Ok(Plan { mode: Some(Mode::JsonToBencode), source: Source::Stdin })
    );
    assert_eq!(
        planned(&[Some("bencode2json")]),
        Ok(Plan { mode: Some(Mode::BencodeToJson), source: Source::Stdin })
    );
    assert_eq!(planned(&[Some("a.torrent")]), Ok(Plan { mode: None, source: Source::FirstArgument }));
    assert_eq!(planned(&[None]), Ok(Plan { mode: None, source: Source::FirstArgument }));
    assert_eq!(
        planned(&[Some("json2bencode"), Some("a.json")]),
        Ok(Plan { mode: Some(Mode::JsonToBencode), source: Source::SecondArgument })
    );
    assert_eq!(
        planned(&[Some("bencode2json"), None]),
        Ok(Plan { mode: Some(Mode::BencodeToJson), source: Source::SecondArgument })
    );
}

#[test]
fn unsuitable_arguments_are_refused() {
    assert_eq!(
        planned(&[Some("json2bencode"), Some("a"), Some("b")]),
        Err(UsageFault::TooManyArguments)
    );
    assert_eq!(
        planned(&[Some("JSON2bencode"), Some("a")]),
        Err(UsageFault::UnknownMode("JSON2bencode".to_owned()))
    );
    assert_eq!(planned(&[None, Some("a")]), Err(UsageFault::ModeNotUtf8));
    assert_eq!(mode_named(&"json2bencode ".to_owned()), None);
    assert_eq!(mode_named(&"bencode2json".to_owned()), Some(Mode::BencodeToJson));
}

#[test]
fn standard_input_is_checked() {
    assert_eq!(check_terminal(true), Err(UsageFault::InteractiveStdin));
    assert_eq!(check_terminal(false), Ok(()));
    assert_eq!(check_stdin(b""), Err(UsageFault::EmptyStdin));
    assert_eq!(check_stdin(b" "), Ok(()));
}

#[test]
fn faults_of_usage_are_described() {
    assert_eq!(UsageFault::<String>::TooManyArguments.message(), "too many arguments");
    assert_eq!(UsageFault::UnknownMode("x".to_owned()).message(), "unknown mode: x");
    assert_eq!(UsageFault::<String>::ModeNotUtf8.message(), "mode is not valid UTF-8");
    assert_eq!(
        UsageFault::<String>::InteractiveStdin.message(),
        "no input file was provided and stdin is interactive"
    );
    assert_eq!(
        UsageFault::<String>::EmptyStdin.message(),
        "no input file was provided and stdin contained no bytes"
    );
}

#[test]
fn the_user_is_told() {
    assert_eq!(mode_notice(Some(Mode::JsonToBencode)), "conversion mode: JSON to bencode");
    assert_eq!(mode_notice(Some(Mode::BencodeToJson)), "conversion mode: bencode to JSON");
    assert_eq!(mode_notice(None), "conversion mode: automatic detection");
    assert_eq!(format_notice(Format::Bencode), "detected input as bencode");
    assert_eq!(format_notice(Format::Json), "detected input as JSON");
    assert_eq!(
        usage("b2j"),
        "usage:\n\nb2j [json2bencode|bencode2json] <file>\nb2j [json2bencode|bencode2json] < input"
    );
}

#[test]
fn the_mode_decides_the_conversion() {
    assert_eq!(
        convert(Some(Mode::JsonToBencode), b"1"),
        Outcome { detected: None, output: Ok(b"i1e".to_vec()) }
    );
    assert_eq!(
        convert(Some(Mode::BencodeToJson), b"i1e"),
        Outcome { detected: None, output: Ok(b"1\n".to_vec()) }
    );
    assert_eq!(
        convert(Some(Mode::BencodeToJson), b"[1]"),
        Outcome { detected: None, output: Err(Fault::InvalidByte { byte: b'[', offset: 0 }) }
    );
    assert_eq!(
        convert(None, b"i1e"),
        Outcome { detected: Some(Format::Bencode), output: Ok(b"1\n".to_vec()) }
    );
    assert_eq!(
        convert(None, b"[1]"),
        Outcome { detected: Some(Format::Json), output: Ok(b"li1ee".to_vec()) }
    );
    assert_eq!(
        convert(None, b"null"),
        Outcome { detected: Some(Format::Json), output: Err(Fault::NullValue) }
    );
}

#[test]
fn output_converts_in_the_other_direction() {
    for data in [&b"i12e"[..], b"4:spam", b"d1:ali1eee", b"1:\xff"] {
        let json = convert(None, data);
        assert_eq!(json.detected, Some(Format::Bencode));
        let json = json.output.unwrap();
        let bencode = convert(None, &json);
        assert_eq!(bencode.detected, Some(Format::Json));
        assert_eq!(bencode.output, Ok(data.to_vec()));
        assert_eq!(convert(Some(Mode::JsonToBencode), &json).output, Ok(data.to_vec()));
    }
}

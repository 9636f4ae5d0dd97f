//! What each command line asks for, and what the user is told.

use vstd::prelude::*;

use crate::cli::{
    converted, detected_format, format_text, mode_of, mode_text, plan, reads_json,
    usage_text, Format, Mode, Plan, Source, UsageFault,
};
use crate::convert::{converted_bencode, converted_json, is_bencode};

verus! {

/// The two modes have the names `json2bencode` and `bencode2json`, and no other name is a mode.
pub proof fn law_modes_have_two_names(name: Seq<char>)
    ensures
        mode_of("json2bencode"@) == Some(Mode::JsonToBencode),
        mode_of("bencode2json"@) == Some(Mode::BencodeToJson),
        name != "json2bencode"@ && name != "bencode2json"@ ==> mode_of(name) is None,
{
    reveal_strlit("json2bencode");
    reveal_strlit("bencode2json");
    assert("json2bencode"@[0] != "bencode2json"@[0]);
}

/// Of two arguments the first is the name of a mode and the second names the input file, whatever
/// it is. Any other first argument is refused.
pub proof fn law_two_arguments_are_mode_and_file(
    arguments: Vec<Option<String>>,
    result: Result<Plan, UsageFault<String>>,
)
    requires
        call_ensures(plan, (&arguments,), result),
        arguments@.len() == 2,
    ensures
        arguments@[0] matches Some(name) ==> {
            &&& name@ == "json2bencode"@ ==> (result matches Ok(plan) && plan.mode == Some(
                Mode::JsonToBencode,
            ) && plan.source == Source::SecondArgument)
            &&& name@ == "bencode2json"@ ==> (result matches Ok(plan) && plan.mode == Some(
                Mode::BencodeToJson,
            ) && plan.source == Source::SecondArgument)
            &&& name@ != "json2bencode"@ && name@ != "bencode2json"@ ==> (result matches Err(
                UsageFault::UnknownMode(unknown),
            ) && unknown@ == name@)
        },
        arguments@[0] is None ==> (result matches Err(UsageFault::ModeNotUtf8)),
{
    law_modes_have_two_names(arguments@[0]->Some_0@);
}

/// A single argument is the name of a mode, with the input on standard input, or else it names the
/// input file.
pub proof fn law_one_argument_is_mode_or_file(
    arguments: Vec<Option<String>>,
    result: Result<Plan, UsageFault<String>>,
)
    requires
        call_ensures(plan, (&arguments,), result),
        arguments@.len() == 1,
    ensures
        result is Ok,
        arguments@[0] matches Some(name) ==> {
            &&& name@ == "json2bencode"@ ==> (result matches Ok(plan) && plan.mode == Some(
                Mode::JsonToBencode,
            ) && plan.source == Source::Stdin)
            &&& name@ == "bencode2json"@ ==> (result matches Ok(plan) && plan.mode == Some(
                Mode::BencodeToJson,
            ) && plan.source == Source::Stdin)
            &&& name@ != "json2bencode"@ && name@ != "bencode2json"@ ==> (result matches Ok(plan)
                && plan.mode is None && plan.source == Source::FirstArgument)
        },
        arguments@[0] is None ==> (result matches Ok(plan) && plan.mode is None && plan.source
            == Source::FirstArgument),
{
    law_modes_have_two_names(arguments@[0]->Some_0@);
}

/// Without arguments the input stands on standard input and its format decides, and more than two
/// arguments are refused.
pub proof fn law_no_or_many_arguments(
    arguments: Vec<Option<String>>,
    result: Result<Plan, UsageFault<String>>,
)
    requires
        call_ensures(plan, (&arguments,), result),
    ensures
        arguments@.len() == 0 ==> (result matches Ok(plan) && plan.mode is None && plan.source
            == Source::Stdin),
        arguments@.len() > 2 ==> (result matches Err(UsageFault::TooManyArguments)),
{
}

/// A mode decides the conversion. Without one, input that is one complete bencode value becomes
/// JSON and any other input becomes bencode.
pub proof fn law_mode_or_format_decides(data: Seq<u8>)
    ensures
        converted(Some(Mode::JsonToBencode), data) == converted_json(data),
        converted(Some(Mode::BencodeToJson), data) == converted_bencode(data),
        is_bencode(data) ==> converted(None, data) == converted_bencode(data),
        !is_bencode(data) ==> converted(None, data) == converted_json(data),
        detected_format(Some(Mode::JsonToBencode), data) is None,
        detected_format(Some(Mode::BencodeToJson), data) is None,
        is_bencode(data) ==> detected_format(None, data) == Some(Format::Bencode),
        !is_bencode(data) ==> detected_format(None, data) == Some(Format::Json),
        reads_json(Some(Mode::JsonToBencode), data),
        !reads_json(Some(Mode::BencodeToJson), data),
        reads_json(None, data) <==> !is_bencode(data),
{
}

/// What the user is told.
pub proof fn law_wording_of_notices(program: Seq<char>, name: String)
    ensures
        mode_text(Some(Mode::JsonToBencode)) == "conversion mode: JSON to bencode"@,
        mode_text(Some(Mode::BencodeToJson)) == "conversion mode: bencode to JSON"@,
        mode_text(None) == "conversion mode: automatic detection"@,
        format_text(Format::Bencode) == "detected input as bencode"@,
        format_text(Format::Json) == "detected input as JSON"@,
        usage_text(program) == "usage:\n\n"@ + program + " [json2bencode|bencode2json] <file>\n"@
            + program + " [json2bencode|bencode2json] < input"@,
        UsageFault::<String>::TooManyArguments@.text() == "too many arguments"@,
        UsageFault::UnknownMode(name)@.text() == "unknown mode: "@ + name@,
        UsageFault::<String>::ModeNotUtf8@.text() == "mode is not valid UTF-8"@,
        UsageFault::<String>::InteractiveStdin@.text()
            == "no input file was provided and stdin is interactive"@,
        UsageFault::<String>::EmptyStdin@.text()
            == "no input file was provided and stdin contained no bytes"@,
{
}

} // verus!

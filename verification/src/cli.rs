//! The decisions of the command line: which conversion is asked for, where the input comes from,
//! and what the user is told.

use vstd::prelude::*;
use vstd::string::StringExecFns;

use crate::bencode::{encoding, BencodeTree};
use crate::conversion_laws::survives_text;
use crate::convert::{
    bencode_to_json, convert_detected, converted_bencode, converted_json, detect, gave_up,
    is_bencode, is_canonical_bencode, is_json_line, json_text, json_to_bencode, Detected,
};
use crate::fault::{meaning, Fault};
use crate::parser::value_at;

verus! {

/// A conversion that the user asks for.
#[derive(Debug, Clone, Copy, PartialEq, Eq)]
pub enum Mode {
    JsonToBencode,
    BencodeToJson,
}

/// Where the input comes from.
#[derive(Debug, Clone, Copy, PartialEq, Eq)]
pub enum Source {
    /// Standard input.
    Stdin,
    /// The file that the first argument names.
    FirstArgument,
    /// The file that the second argument names.
    SecondArgument,
}

/// What the command line asks for. Without a mode the format of the input decides.
#[derive(Debug, Clone, Copy, PartialEq, Eq)]
pub struct Plan {
    pub mode: Option<Mode>,
    pub source: Source,
}

/// Why the program cannot begin. `Text` is how the fault holds text: `String` in a result, a
/// sequence of characters in a specification.
#[derive(Debug, PartialEq, Eq)]
pub enum UsageFault<Text> {
    /// There are more than two arguments.
    TooManyArguments,
    /// The first of two arguments names no mode.
    UnknownMode(Text),
    /// The first of two arguments is not text.
    ModeNotUtf8,
    /// There is no input file, and standard input is a terminal.
    InteractiveStdin,
    /// There is no input file, and standard input is empty.
    EmptyStdin,
}

impl View for UsageFault<String> {
    type V = UsageFault<Seq<char>>;

    open spec fn view(&self) -> UsageFault<Seq<char>> {
        match *self {
            UsageFault::TooManyArguments => UsageFault::TooManyArguments,
            UsageFault::UnknownMode(name) => UsageFault::UnknownMode(name@),
            UsageFault::ModeNotUtf8 => UsageFault::ModeNotUtf8,
            UsageFault::InteractiveStdin => UsageFault::InteractiveStdin,
            UsageFault::EmptyStdin => UsageFault::EmptyStdin,
        }
    }
}

impl UsageFault<Seq<char>> {
    /// The text that describes the fault.
    pub open spec fn text(self) -> Seq<char> {
        match self {
            UsageFault::TooManyArguments => "too many arguments"@,
            UsageFault::UnknownMode(name) => "unknown mode: "@ + name,
            UsageFault::ModeNotUtf8 => "mode is not valid UTF-8"@,
            UsageFault::InteractiveStdin => "no input file was provided and stdin is interactive"@,
            UsageFault::EmptyStdin => "no input file was provided and stdin contained no bytes"@,
        }
    }
}

impl UsageFault<String> {
    /// Describes the fault.
    pub fn message(&self) -> (message: String)
        ensures
            message@ == self@.text(),
    {
        match self {
            UsageFault::TooManyArguments => "too many arguments".to_owned(),
            UsageFault::UnknownMode(name) => {
                let mut message = "unknown mode: ".to_owned();
                message.append(name.as_str());
                message
            },
            UsageFault::ModeNotUtf8 => "mode is not valid UTF-8".to_owned(),
            UsageFault::InteractiveStdin => {
                "no input file was provided and stdin is interactive".to_owned()
            },
            UsageFault::EmptyStdin => {
                "no input file was provided and stdin contained no bytes".to_owned()
            },
        }
    }
}

/// The mode that a name stands for.
pub open spec fn mode_of(name: Seq<char>) -> Option<Mode> {
    if name == "json2bencode"@ {
        Some(Mode::JsonToBencode)
    } else if name == "bencode2json"@ {
        Some(Mode::BencodeToJson)
    } else {
        None
    }
}

/// Finds the mode that a name stands for.
pub fn mode_named(name: &String) -> (mode: Option<Mode>)
    ensures
        mode == mode_of(name@),
        mode == Some(Mode::JsonToBencode) <==> name@ == "json2bencode"@,
        mode == Some(Mode::BencodeToJson) <==> name@ == "bencode2json"@,
{
    proof {
        reveal_strlit("json2bencode");
        reveal_strlit("bencode2json");
        assert("json2bencode"@[0] != "bencode2json"@[0]);
    }
    if *name == "json2bencode".to_owned() {
        Some(Mode::JsonToBencode)
    } else if *name == "bencode2json".to_owned() {
        Some(Mode::BencodeToJson)
    } else {
        None
    }
}

/// An argument as text, unless it is not valid UTF-8.
pub open spec fn argument_text(argument: Option<String>) -> Option<Seq<char>> {
    match argument {
        Some(text) => Some(text@),
        None => None,
    }
}

/// What the arguments behind the name of the program ask for. A single argument is either a mode
/// or the name of the input file, and two are a mode and the name of the input file.
pub open spec fn planned(arguments: Seq<Option<Seq<char>>>) -> Result<Plan, UsageFault<Seq<char>>> {
    if arguments.len() > 2 {
        Err(UsageFault::TooManyArguments)
    } else if arguments.len() == 2 {
        match arguments[0] {
            None => Err(UsageFault::ModeNotUtf8),
            Some(name) => match mode_of(name) {
                Some(mode) => Ok(Plan { mode: Some(mode), source: Source::SecondArgument }),
                None => Err(UsageFault::UnknownMode(name)),
            },
        }
    } else if arguments.len() == 1 && arguments[0] is Some && mode_of(
        arguments[0]->Some_0,
    ) is Some {
        Ok(Plan { mode: mode_of(arguments[0]->Some_0), source: Source::Stdin })
    } else if arguments.len() == 1 {
        Ok(Plan { mode: None, source: Source::FirstArgument })
    } else {
        Ok(Plan { mode: None, source: Source::Stdin })
    }
}

/// Decides what the arguments behind the name of the program ask for. Each is given as text, or
/// as `None` if it is not valid UTF-8.
pub fn plan(arguments: &Vec<Option<String>>) -> (result: Result<Plan, UsageFault<String>>)
    ensures
        match result {
            Ok(plan) => planned(arguments@.map_values(|a: Option<String>| argument_text(a))) == Ok::<
                Plan,
                UsageFault<Seq<char>>,
            >(plan),
            Err(fault) => planned(arguments@.map_values(|a: Option<String>| argument_text(a)))
                == Err::<Plan, UsageFault<Seq<char>>>(fault@),
        },
        arguments@.len() > 2 ==> (result matches Err(UsageFault::TooManyArguments)),
        arguments@.len() == 2 && arguments@[0] is None ==> (result matches Err(
            UsageFault::ModeNotUtf8,
        )),
        arguments@.len() == 2 && (arguments@[0] matches Some(name) && name@ == "json2bencode"@) ==> (
        result matches Ok(plan) && plan.mode == Some(Mode::JsonToBencode) && plan.source
            == Source::SecondArgument),
        arguments@.len() == 2 && (arguments@[0] matches Some(name) && name@ == "bencode2json"@) ==> (
        result matches Ok(plan) && plan.mode == Some(Mode::BencodeToJson) && plan.source
            == Source::SecondArgument),
{
    if arguments.len() > 2 {
        return Err(UsageFault::TooManyArguments);
    }
    if arguments.len() == 0 {
        return Ok(Plan { mode: None, source: Source::Stdin });
    }
    if arguments.len() == 1 {
        // If the only argument is not a recognized mode, it is an input-file path.
        let mode = match &arguments[0] {
            Some(name) => mode_named(name),
            None => None,
        };
        return match mode {
            Some(mode) => Ok(Plan { mode: Some(mode), source: Source::Stdin }),
            None => Ok(Plan { mode: None, source: Source::FirstArgument }),
        };
    }
    match &arguments[0] {
        None => Err(UsageFault::ModeNotUtf8),
        Some(name) => match mode_named(name) {
            Some(mode) => Ok(Plan { mode: Some(mode), source: Source::SecondArgument }),
            None => Err(UsageFault::UnknownMode(name.clone())),
        },
    }
}

/// Refuses to wait for input on a terminal.
pub fn check_terminal(interactive: bool) -> (result: Result<(), UsageFault<String>>)
    ensures
        result is Ok <==> !interactive,
        result matches Err(fault) ==> fault@ == UsageFault::<Seq<char>>::InteractiveStdin,
{
    if interactive {
        Err(UsageFault::InteractiveStdin)
    } else {
        Ok(())
    }
}

/// Refuses empty standard input.
pub fn check_stdin(data: &[u8]) -> (result: Result<(), UsageFault<String>>)
    ensures
        result is Ok <==> data@.len() > 0,
        result matches Err(fault) ==> fault@ == UsageFault::<Seq<char>>::EmptyStdin,
{
    if data.len() == 0 {
        Err(UsageFault::EmptyStdin)
    } else {
        Ok(())
    }
}

/// A format of the input.
#[derive(Debug, Clone, Copy, PartialEq, Eq)]
pub enum Format {
    Bencode,
    Json,
}

/// What became of the input.
#[derive(Debug, PartialEq, Eq)]
pub struct Outcome {
    /// The format that the input was found to have, if no mode was asked for.
    pub detected: Option<Format>,
    /// The converted input, or why it could not be converted.
    pub output: Result<Vec<u8>, Fault<String>>,
}

/// The format that input is found to have where no mode is asked for.
pub open spec fn detected_format(mode: Option<Mode>, data: Seq<u8>) -> Option<Format> {
    if mode is Some {
        None
    } else if is_bencode(data) {
        Some(Format::Bencode)
    } else {
        Some(Format::Json)
    }
}

/// What input converts to under a mode.
pub open spec fn converted(mode: Option<Mode>, data: Seq<u8>) -> Result<Seq<u8>, Fault<Seq<char>>> {
    match mode {
        Some(Mode::JsonToBencode) => converted_json(data),
        Some(Mode::BencodeToJson) => converted_bencode(data),
        None => if is_bencode(data) {
            converted_bencode(data)
        } else {
            converted_json(data)
        },
    }
}

/// Whether input is read as JSON5 under a mode.
pub open spec fn reads_json(mode: Option<Mode>, data: Seq<u8>) -> bool {
    match mode {
        Some(Mode::JsonToBencode) => true,
        Some(Mode::BencodeToJson) => false,
        None => !is_bencode(data),
    }
}

/// Converts input as the mode asks for, or to the other format if there is none. JSON5 can be
/// refused because its reader ran short.
pub fn convert(mode: Option<Mode>, data: &[u8]) -> (outcome: Outcome)
    ensures
        outcome.detected == detected_format(mode, data@),
        meaning(outcome.output) == converted(mode, data@) || (reads_json(mode, data@) && gave_up(
            data@,
            outcome.output,
        )),
        outcome.output matches Ok(output) ==> if reads_json(mode, data@) {
            is_canonical_bencode(output@)
        } else {
            value_at(data@, 0).0 matches Ok(tree) && is_json_line(tree, output@)
        },
        outcome.output matches Ok(output) ==> (is_bencode(output@) <==> reads_json(mode, data@)),
        reads_json(mode, data@) ==> forall|tree: BencodeTree|
            survives_text(tree) && #[trigger] json_text(tree) == Ok::<Seq<u8>, Fault<Seq<char>>>(
                data@,
            ) ==> meaning(outcome.output) == Ok::<Seq<u8>, Fault<Seq<char>>>(encoding(tree))
                || gave_up(data@, outcome.output),
{
    match mode {
        Some(Mode::JsonToBencode) => Outcome { detected: None, output: json_to_bencode(data) },
        Some(Mode::BencodeToJson) => Outcome { detected: None, output: bencode_to_json(data) },
        None => {
            let detected = detect(data);
            let format = match &detected {
                Detected::Bencode(_) => Format::Bencode,
                Detected::Json => Format::Json,
            };
            let output = match convert_detected(&detected, data) {
                Ok((_, output)) => Ok(output),
                Err(fault) => Err(fault),
            };
            Outcome { detected: Some(format), output }
        },
    }
}

/// The line that says which conversion takes place.
pub open spec fn mode_text(mode: Option<Mode>) -> Seq<char> {
    match mode {
        Some(Mode::JsonToBencode) => "conversion mode: JSON to bencode"@,
        Some(Mode::BencodeToJson) => "conversion mode: bencode to JSON"@,
        None => "conversion mode: automatic detection"@,
    }
}

/// Says which conversion takes place.
pub fn mode_notice(mode: Option<Mode>) -> (notice: &'static str)
    ensures
        notice@ == mode_text(mode),
{
    match mode {
        Some(Mode::JsonToBencode) => "conversion mode: JSON to bencode",
        Some(Mode::BencodeToJson) => "conversion mode: bencode to JSON",
        None => "conversion mode: automatic detection",
    }
}

/// The line that says which format was found.
pub open spec fn format_text(format: Format) -> Seq<char> {
    match format {
        Format::Bencode => "detected input as bencode"@,
        Format::Json => "detected input as JSON"@,
    }
}

/// Says which format was found.
pub fn format_notice(format: Format) -> (notice: &'static str)
    ensures
        notice@ == format_text(format),
{
    match format {
        Format::Bencode => "detected input as bencode",
        Format::Json => "detected input as JSON",
    }
}

/// How the program is to be called.
pub open spec fn usage_text(program: Seq<char>) -> Seq<char> {
    "usage:\n\n"@ + program + " [json2bencode|bencode2json] <file>\n"@ + program
        + " [json2bencode|bencode2json] < input"@
}

/// Says how the program is to be called.
pub fn usage(program: &str) -> (text: String)
    ensures
        text@ == usage_text(program@),
{
    let mut text = "usage:\n\n".to_owned();
    text.append(program);
    text.append(" [json2bencode|bencode2json] <file>\n");
    text.append(program);
    text.append(" [json2bencode|bencode2json] < input");
    text
}

} // verus!

//! Convert between JSON and bencode.
//!
//! JSON values are mapped to bencode as follows:
//!
//! - `null` is rejected because bencode has no null value.
//! - Booleans become integers: `false` becomes `0`, and `true` becomes `1`.
//! - Numbers must fit in a signed 64-bit integer.
//! - Strings become byte strings.
//! - Arrays become lists.
//! - Objects become dictionaries, whose keys are in ascending order.
//!
//! Non-UTF-8 bencode byte strings are represented in JSON using this format:
//!
//! ```text
//! "[binary: ff00ab]"
//! ```
//!
//! Bencode is written and read by [`bencode`] and [`parser`], the conversions stand in [`convert`],
//! and the decisions of the command line in [`cli`]. What is proved of them stands in the modules of
//! laws: what is written and read, byte by byte, in [`number_laws`], [`writing_laws`] and
//! [`grammar_laws`]; what values become, part by part, in [`value_laws`] and [`marker_laws`]; what
//! holds of whole conversions in [`reading_laws`] and [`conversion_laws`]; and what the user asks
//! for and is told in [`cli_laws`] and [`wording_laws`]. The calls into other crates, and what is
//! believed of them, are gathered in [`outside`].

pub mod ascii;
pub mod bencode;
pub mod cli;
pub mod cli_laws;
pub mod conversion_laws;
pub mod convert;
pub mod decimal;
pub mod fault;
pub mod grammar_laws;
pub mod hexadecimal;
pub mod json;
pub mod marker;
pub mod marker_laws;
pub mod number_laws;
pub mod outside;
pub mod parser;
pub mod reading_laws;
pub mod value_laws;
pub mod wording_laws;
pub mod writing_laws;

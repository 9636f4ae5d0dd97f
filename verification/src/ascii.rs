//! The ASCII codes that the formats use.

use vstd::prelude::*;

verus! {

/// A line feed.
pub const NEWLINE: u8 = 0x0a;

/// `"`
pub const QUOTE: u8 = 0x22;

/// `+`
pub const PLUS: u8 = 0x2b;

/// `-`
pub const MINUS: u8 = 0x2d;

/// `0`
pub const ZERO: u8 = 0x30;

/// `9`
pub const NINE: u8 = 0x39;

/// `:`
pub const COLON: u8 = 0x3a;

/// `[`
pub const BRACKET: u8 = 0x5b;

/// `d`
pub const LOWER_D: u8 = 0x64;

/// `e`
pub const LOWER_E: u8 = 0x65;

/// `i`
pub const LOWER_I: u8 = 0x69;

/// `l`
pub const LOWER_L: u8 = 0x6c;

/// `{`
pub const BRACE: u8 = 0x7b;

} // verus!

//! The ASCII bytes that the wire gives a meaning.
use vstd::prelude::*;

verus! {

/// Line feed.
pub const NEWLINE: u8 = 0x0a;

/// Carriage return.
pub const RETURN: u8 = 0x0d;

/// A space.
pub const SPACE: u8 = 0x20;

/// `"`
pub const QUOTE: u8 = 0x22;

/// `-`
pub const DASH: u8 = 0x2d;

/// `0`
pub const ZERO: u8 = 0x30;

/// `1`
pub const ONE: u8 = 0x31;

/// `9`
pub const NINE: u8 = 0x39;

/// `<`
pub const LESS: u8 = 0x3c;

/// `>`
pub const GREATER: u8 = 0x3e;

/// `[`
pub const OPEN: u8 = 0x5b;

/// `\`
pub const BACKSLASH: u8 = 0x5c;

/// `]`
pub const CLOSE: u8 = 0x5d;

} // verus!

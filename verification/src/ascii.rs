//! The bytes that the grammar names.

use vstd::prelude::*;

verus! {

pub const BACKSPACE: u8 = 0x08;

pub const TAB: u8 = 0x09;

pub const LINE_FEED: u8 = 0x0A;

pub const FORM_FEED: u8 = 0x0C;

pub const CARRIAGE_RETURN: u8 = 0x0D;

pub const SPACE: u8 = 0x20;

pub const QUOTE: u8 = 0x22;

pub const HASH: u8 = 0x23;

pub const AMPERSAND: u8 = 0x26;

pub const APOSTROPHE: u8 = 0x27;

pub const PLUS: u8 = 0x2B;

pub const HYPHEN: u8 = 0x2D;

pub const FULL_STOP: u8 = 0x2E;

pub const DIGIT_0: u8 = 0x30;

pub const DIGIT_9: u8 = 0x39;

pub const COLON: u8 = 0x3A;

pub const SEMICOLON: u8 = 0x3B;

pub const LESS: u8 = 0x3C;

pub const GREATER: u8 = 0x3E;

pub const AT: u8 = 0x40;

pub const UPPER_A: u8 = 0x41;

pub const UPPER_F: u8 = 0x46;

pub const UPPER_U: u8 = 0x55;

pub const UPPER_Z: u8 = 0x5A;

pub const BACKSLASH: u8 = 0x5C;

pub const CARET: u8 = 0x5E;

pub const UNDERSCORE: u8 = 0x5F;

pub const BACKTICK: u8 = 0x60;

pub const LOWER_A: u8 = 0x61;

pub const LOWER_B: u8 = 0x62;

pub const LOWER_F: u8 = 0x66;

pub const LOWER_G: u8 = 0x67;

pub const LOWER_L: u8 = 0x6C;

pub const LOWER_M: u8 = 0x6D;

pub const LOWER_N: u8 = 0x6E;

pub const LOWER_O: u8 = 0x6F;

pub const LOWER_P: u8 = 0x70;

pub const LOWER_Q: u8 = 0x71;

pub const LOWER_R: u8 = 0x72;

pub const LOWER_S: u8 = 0x73;

pub const LOWER_T: u8 = 0x74;

pub const LOWER_U: u8 = 0x75;

pub const LOWER_Z: u8 = 0x7A;

pub const LEFT_BRACE: u8 = 0x7B;

pub const BAR: u8 = 0x7C;

pub const RIGHT_BRACE: u8 = 0x7D;

} // verus!

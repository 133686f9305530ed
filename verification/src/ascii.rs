//! Names for the ASCII bytes that the grammar mentions.

use vstd::prelude::*;

verus! {

pub const TAB: u8 = 9;
pub const LF: u8 = 10;
pub const CR: u8 = 13;
pub const SPACE: u8 = 32;
pub const DQUOTE: u8 = 34;
pub const HASH: u8 = 35;
pub const SQUOTE: u8 = 39;
pub const LPAREN: u8 = 40;
pub const RPAREN: u8 = 41;
pub const PLUS: u8 = 43;
pub const COMMA: u8 = 44;
pub const MINUS: u8 = 45;
pub const DOT: u8 = 46;
pub const DIGIT_0: u8 = 48;
pub const DIGIT_7: u8 = 55;
pub const DIGIT_9: u8 = 57;
pub const EQUALS: u8 = 61;
pub const UPPER_A: u8 = 65;
pub const UPPER_B: u8 = 66;
pub const UPPER_E: u8 = 69;
pub const UPPER_F: u8 = 70;
pub const UPPER_O: u8 = 79;
pub const UPPER_X: u8 = 88;
pub const UPPER_Z: u8 = 90;
pub const LBRACKET: u8 = 91;
pub const BACKSLASH: u8 = 92;
pub const RBRACKET: u8 = 93;
pub const UNDERSCORE: u8 = 95;
pub const LOWER_A: u8 = 97;
pub const LOWER_B: u8 = 98;
pub const LOWER_E: u8 = 101;
pub const LOWER_F: u8 = 102;
pub const LOWER_L: u8 = 108;
pub const LOWER_N: u8 = 110;
pub const LOWER_O: u8 = 111;
pub const LOWER_R: u8 = 114;
pub const LOWER_S: u8 = 115;
pub const LOWER_T: u8 = 116;
pub const LOWER_U: u8 = 117;
pub const LOWER_X: u8 = 120;
pub const LOWER_Z: u8 = 122;
pub const LBRACE: u8 = 123;
pub const RBRACE: u8 = 125;

} // verus!

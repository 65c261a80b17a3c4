//! The typecode table: which leading byte stands for which kind of value.
use vstd::prelude::*;

verus! {

/// Open list: elements follow, closed by `TERM`.
pub const LIST: u8 = 59;
/// Open map: key/value pairs follow, closed by `TERM`.
pub const DICT: u8 = 60;
/// An 8-bit signed integer follows.
pub const I8: u8 = 62;
/// A big-endian 16-bit signed integer follows.
pub const I16: u8 = 63;
/// A big-endian 32-bit signed integer follows.
pub const I32: u8 = 64;
/// A big-endian 64-bit signed integer follows.
pub const I64: u8 = 65;
/// A big-endian IEEE-754 single follows.
pub const F32: u8 = 66;
/// A big-endian IEEE-754 double follows.
pub const F64: u8 = 44;
pub const TRUE: u8 = 67;
pub const FALSE: u8 = 68;
pub const NONE: u8 = 69;
/// Terminator of an open list or open map.
pub const TERM: u8 = 127;

/// Non-negative integers embedded in the typecode: 0 to 43.
pub const INT_POS_FIXED_START: u8 = 0;
pub const INT_POS_FIXED_COUNT: u8 = 44;
pub const INT_POS_FIXED_END: u8 = 43;

/// Negative integers embedded in the typecode: 70 stands for -1, 101 for -32.
pub const INT_NEG_FIXED_START: u8 = 70;
pub const INT_NEG_FIXED_COUNT: u8 = 32;
pub const INT_NEG_FIXED_END: u8 = 101;

/// Strings whose byte length (0 to 63) is embedded in the typecode.
pub const STR_FIXED_START: u8 = 128;
pub const STR_FIXED_COUNT: u8 = 64;
pub const STR_FIXED_END: u8 = 191;

/// Lists whose element count (0 to 63) is embedded in the typecode.
pub const LIST_FIXED_START: u8 = 192;
pub const LIST_FIXED_COUNT: u8 = 64;
pub const LIST_FIXED_END: u8 = 255;

/// Maps whose pair count (0 to 24) is embedded in the typecode.
pub const DICT_FIXED_START: u8 = 102;
pub const DICT_FIXED_COUNT: u8 = 25;
pub const DICT_FIXED_END: u8 = 126;

/// The ASCII digit and delimiter of the decimal-length string form.
pub const DIGIT_0: u8 = 48;
pub const DIGIT_9: u8 = 57;
pub const COLON: u8 = 58;

pub open spec fn is_digit(b: u8) -> bool {
    DIGIT_0 <= b <= DIGIT_9
}

} // verus!

//! Word_Break property (UAX #29 Section 4).
//!
//! Each class is a table of closed code point ranges; `wb` tests them in a
//! fixed priority order.
use vstd::prelude::*;

use crate::text::{in_ranges, ranges_contain};

verus! {

/// Word_Break property value (UAX #29 Table 2).
#[derive(Clone, Copy, Debug, PartialEq, Eq, Structural)]
pub enum Wb {
    /// Carriage return U+000D
    Cr,
    /// Line feed U+000A
    Lf,
    /// Newline (VT, FF, NEL, LS, PS)
    Newline,
    /// Combining marks, ZWNJ
    Extend,
    /// Format characters other than ZWNJ/ZWJ
    Format,
    /// Zero-width joiner U+200D
    Zwj,
    /// Alphabetic letter
    ALetter,
    /// Hebrew letter
    HebrewLetter,
    /// Numeric
    Numeric,
    /// Katakana / Hiragana
    Katakana,
    /// U+0027 APOSTROPHE
    SingleQuote,
    /// U+0022 QUOTATION MARK
    DoubleQuote,
    /// MidLetter
    MidLetter,
    /// MidNumLet
    MidNumLet,
    /// MidNum
    MidNum,
    /// ExtendNumLet (U+005F LOW LINE)
    ExtendNumLet,
    /// Word-segmenting space
    WSegSpace,
    /// Regional_Indicator U+1F1E6..U+1F1FF
    RegionalIndicator,
    /// Anything else
    Other,
}

/// The Word_Break value of `c`: the first class in priority order whose
/// table holds the code point.
pub open spec fn spec_wb(c: char) -> Wb {
    let u = c as u32;
    if u == 0x000D {
        Wb::Cr
    } else if u == 0x000A {
        Wb::Lf
    } else if u == 0x000B || u == 0x000C || u == 0x0085 || u == 0x2028 || u == 0x2029 {
        Wb::Newline
    } else if u == 0x200D {
        Wb::Zwj
    } else if u == 0x200C {
        Wb::Extend
    } else if u == 0x0022 {
        Wb::DoubleQuote
    } else if u == 0x0027 {
        Wb::SingleQuote
    } else if u == 0x005F {
        Wb::ExtendNumLet
    } else if u == 0x06DD {
        Wb::Numeric
    } else if u == 0x070F {
        Wb::ALetter
    } else if in_ranges(WB_FORMAT@, u) {
        Wb::Format
    } else if in_ranges(WB_EXTEND@, u) {
        Wb::Extend
    } else if in_ranges(WB_WSEG_SPACE@, u) {
        Wb::WSegSpace
    } else if in_ranges(WB_HEBREW_LETTER@, u) {
        Wb::HebrewLetter
    } else if in_ranges(WB_KATAKANA@, u) {
        Wb::Katakana
    } else if in_ranges(WB_MID_LETTER@, u) {
        Wb::MidLetter
    } else if in_ranges(WB_MID_NUM_LET@, u) {
        Wb::MidNumLet
    } else if in_ranges(WB_MID_NUM@, u) {
        Wb::MidNum
    } else if in_ranges(WB_NUMERIC@, u) {
        Wb::Numeric
    } else if 0x1F1E6 <= u && u <= 0x1F1FF {
        Wb::RegionalIndicator
    } else if in_ranges(WB_LETTER@, u) {
        Wb::ALetter
    } else {
        Wb::Other
    }
}

/// Returns Word_Break for the given code point (UAX #29).
pub fn wb(c: char) -> (w: Wb)
    ensures
        w == spec_wb(c),
{
    let u = c as u32;
    if u == 0x000D {
        Wb::Cr
    } else if u == 0x000A {
        Wb::Lf
    } else if u == 0x000B || u == 0x000C || u == 0x0085 || u == 0x2028 || u == 0x2029 {
        Wb::Newline
    } else if u == 0x200D {
        Wb::Zwj
    } else if u == 0x200C {
        Wb::Extend
    } else if u == 0x0022 {
        Wb::DoubleQuote
    } else if u == 0x0027 {
        Wb::SingleQuote
    } else if u == 0x005F {
        Wb::ExtendNumLet
    } else if u == 0x06DD {
        Wb::Numeric
    } else if u == 0x070F {
        Wb::ALetter
    } else if ranges_contain(WB_FORMAT.as_slice(), u) {
        Wb::Format
    } else if ranges_contain(WB_EXTEND.as_slice(), u) {
        Wb::Extend
    } else if ranges_contain(WB_WSEG_SPACE.as_slice(), u) {
        Wb::WSegSpace
    } else if ranges_contain(WB_HEBREW_LETTER.as_slice(), u) {
        Wb::HebrewLetter
    } else if ranges_contain(WB_KATAKANA.as_slice(), u) {
        Wb::Katakana
    } else if ranges_contain(WB_MID_LETTER.as_slice(), u) {
        Wb::MidLetter
    } else if ranges_contain(WB_MID_NUM_LET.as_slice(), u) {
        Wb::MidNumLet
    } else if ranges_contain(WB_MID_NUM.as_slice(), u) {
        Wb::MidNum
    } else if ranges_contain(WB_NUMERIC.as_slice(), u) {
        Wb::Numeric
    } else if 0x1F1E6 <= u && u <= 0x1F1FF {
        Wb::RegionalIndicator
    } else if ranges_contain(WB_LETTER.as_slice(), u) {
        Wb::ALetter
    } else {
        Wb::Other
    }
}

/// Extended_Pictographic (emoji-data.txt), used for WB3c.
pub open spec fn spec_is_extended_pictographic(c: char) -> bool {
    in_ranges(EXTENDED_PICTOGRAPHIC@, c as u32)
}

/// Returns true if `c` has the Extended_Pictographic property.
pub fn is_extended_pictographic(c: char) -> (r: bool)
    ensures
        r == spec_is_extended_pictographic(c),
{
    ranges_contain(EXTENDED_PICTOGRAPHIC.as_slice(), c as u32)
}

pub const WB_FORMAT: [(u32, u32); 7] = [
    (0x00AD, 0x00AD), (0x0600, 0x0605), (0x200E, 0x200F), (0x202A, 0x202E),
    (0x2060, 0x2064), (0x2066, 0x206F), (0xFEFF, 0xFEFF),
];

pub const WB_EXTEND: [(u32, u32); 145] = [
    (0x0300, 0x036F), (0x0483, 0x0489), (0x0591, 0x05BD), (0x0610, 0x061A),
    (0x064B, 0x065F), (0x0670, 0x0670), (0x06D6, 0x06DC), (0x06DF, 0x06E4),
    (0x06E7, 0x06E8), (0x06EA, 0x06ED), (0x0730, 0x074A), (0x07A6, 0x07B0),
    (0x0900, 0x0902), (0x093A, 0x094D), (0x0951, 0x0957), (0x0962, 0x0963),
    (0x0981, 0x0983), (0x09BC, 0x09C4), (0x09C7, 0x09C8), (0x09CB, 0x09CD),
    (0x09D7, 0x09D7), (0x09E2, 0x09E3), (0x0A01, 0x0A03), (0x0A3C, 0x0A3C),
    (0x0A3E, 0x0A42), (0x0A47, 0x0A48), (0x0A4B, 0x0A4D), (0x0A51, 0x0A51),
    (0x0A70, 0x0A71), (0x0A75, 0x0A75), (0x0A81, 0x0A83), (0x0ABC, 0x0ACD),
    (0x0AE2, 0x0AE3), (0x0B01, 0x0B03), (0x0B3C, 0x0B44), (0x0B47, 0x0B48),
    (0x0B4B, 0x0B4D), (0x0B56, 0x0B57), (0x0B62, 0x0B63), (0x0B82, 0x0B82),
    (0x0BBE, 0x0BCC), (0x0BD7, 0x0BD7), (0x0C00, 0x0C44), (0x0C46, 0x0C4D),
    (0x0C55, 0x0C56), (0x0C62, 0x0C63), (0x0C81, 0x0C83), (0x0CBC, 0x0CCD),
    (0x0CD5, 0x0CD6), (0x0CE2, 0x0CE3), (0x0D01, 0x0D03), (0x0D3B, 0x0D3C),
    (0x0D3E, 0x0D44), (0x0D46, 0x0D48), (0x0D4A, 0x0D4D), (0x0D57, 0x0D57),
    (0x0D62, 0x0D63), (0x0D82, 0x0D83), (0x0DCA, 0x0DDF), (0x0DF2, 0x0DF3),
    (0x0E31, 0x0E31), (0x0E34, 0x0E3A), (0x0E47, 0x0E4E), (0x0EB1, 0x0EB1),
    (0x0EB4, 0x0EBC), (0x0EC8, 0x0ECE), (0x0F18, 0x0F19), (0x0F35, 0x0F35),
    (0x0F37, 0x0F37), (0x0F39, 0x0F39), (0x0F3E, 0x0F3F), (0x0F71, 0x0F84),
    (0x0F86, 0x0F87), (0x0F8D, 0x0FBC), (0x0FC6, 0x0FC6), (0x102B, 0x103E),
    (0x1056, 0x1059), (0x105E, 0x1060), (0x1062, 0x1064), (0x1067, 0x106D),
    (0x1071, 0x1074), (0x1082, 0x108D), (0x108F, 0x108F), (0x109A, 0x109D),
    (0x135D, 0x135F), (0x1712, 0x1714), (0x1732, 0x1734), (0x1752, 0x1753),
    (0x1772, 0x1773), (0x17B4, 0x17D3), (0x17DD, 0x17DD), (0x180B, 0x180D),
    (0x18A9, 0x18A9), (0x1920, 0x193B), (0x1A17, 0x1A1B), (0x1A55, 0x1A72),
    (0x1A7F, 0x1A7F), (0x1AB0, 0x1ABE), (0x1ABF, 0x1AC0), (0x1B00, 0x1B04),
    (0x1B34, 0x1B44), (0x1B6B, 0x1B73), (0x1B80, 0x1B82), (0x1BA1, 0x1BAD),
    (0x1BE6, 0x1BF3), (0x1C24, 0x1C37), (0x1CD0, 0x1CE8), (0x1CED, 0x1CED),
    (0x1CF4, 0x1CF9), (0x1DC0, 0x1DFF), (0x20D0, 0x20F0), (0x2CEF, 0x2CF1),
    (0x2D7F, 0x2D7F), (0x2DE0, 0x2DFF), (0x302A, 0x302F), (0x3099, 0x309A),
    (0xA66F, 0xA672), (0xA674, 0xA67D), (0xA69E, 0xA69F), (0xA6F0, 0xA6F1),
    (0xA802, 0xA827), (0xA82C, 0xA82C), (0xA880, 0xA8C4), (0xA8E0, 0xA8F1),
    (0xA926, 0xA92D), (0xA947, 0xA953), (0xA980, 0xA983), (0xA9B3, 0xA9C0),
    (0xA9E5, 0xA9E5), (0xAA29, 0xAA36), (0xAA43, 0xAA43), (0xAA4C, 0xAA4D),
    (0xAA7B, 0xAA7D), (0xAAB0, 0xAABF), (0xAAC1, 0xAAC1), (0xAAEB, 0xAAEF),
    (0xAAF5, 0xAAF6), (0xABE3, 0xABEA), (0xABEC, 0xABED), (0xFB1E, 0xFB1E),
    (0xFE00, 0xFE0F), (0xFE20, 0xFE2F), (0xFF9E, 0xFF9F), (0x1F3FB, 0x1F3FF),
    (0xE0100, 0xE01EF),
];

pub const WB_WSEG_SPACE: [(u32, u32); 8] = [
    (0x0009, 0x0009), (0x0020, 0x0020), (0x00A0, 0x00A0), (0x1680, 0x1680),
    (0x2000, 0x200B), (0x202F, 0x202F), (0x205F, 0x205F), (0x3000, 0x3000),
];

pub const WB_HEBREW_LETTER: [(u32, u32); 3] = [
    (0x05D0, 0x05EA), (0x05EF, 0x05F2), (0xFB1D, 0xFB4F),
];

pub const WB_KATAKANA: [(u32, u32); 4] = [
    (0x3031, 0x3035), (0x3041, 0x3096), (0x30A1, 0x30FA), (0x30FC, 0x30FE),
];

pub const WB_MID_LETTER: [(u32, u32); 9] = [
    (0x003A, 0x003A), (0x00B7, 0x00B7), (0x0387, 0x0387), (0x055F, 0x055F),
    (0x05F4, 0x05F4), (0x2027, 0x2027), (0xFE13, 0xFE13), (0xFE55, 0xFE55),
    (0xFF1A, 0xFF1A),
];

pub const WB_MID_NUM_LET: [(u32, u32); 7] = [
    (0x002E, 0x002E), (0x2018, 0x2018), (0x2019, 0x2019), (0x2024, 0x2024),
    (0xFE52, 0xFE52), (0xFF07, 0xFF07), (0xFF0E, 0xFF0E),
];

pub const WB_MID_NUM: [(u32, u32); 10] = [
    (0x002C, 0x002C), (0x037E, 0x037E), (0x0589, 0x0589), (0x060C, 0x060C),
    (0x060D, 0x060D), (0x07F8, 0x07F8), (0x2044, 0x2044), (0xFE10, 0xFE10),
    (0xFE50, 0xFE50), (0xFF0C, 0xFF0C),
];

pub const WB_NUMERIC: [(u32, u32); 34] = [
    (0x0030, 0x0039), (0x0660, 0x0669), (0x06F0, 0x06F9), (0x0966, 0x096F),
    (0x09E6, 0x09EF), (0x0A66, 0x0A6F), (0x0AE6, 0x0AEF), (0x0B66, 0x0B6F),
    (0x0BE6, 0x0BEF), (0x0C66, 0x0C6F), (0x0CE6, 0x0CEF), (0x0D66, 0x0D6F),
    (0x0DE6, 0x0DEF), (0x0E50, 0x0E59), (0x0ED0, 0x0ED9), (0x0F20, 0x0F33),
    (0x1040, 0x1049), (0x1090, 0x1099), (0x17E0, 0x17E9), (0x1810, 0x1819),
    (0x1946, 0x194F), (0x19D0, 0x19D9), (0x1A80, 0x1A99), (0x1B50, 0x1B59),
    (0x1BB0, 0x1BB9), (0x1C40, 0x1C49), (0x1C50, 0x1C59), (0xA620, 0xA629),
    (0xA8D0, 0xA8D9), (0xA900, 0xA909), (0xA9D0, 0xA9D9), (0xAA50, 0xAA59),
    (0xABF0, 0xABF9), (0xFF10, 0xFF19),
];

pub const WB_LETTER: [(u32, u32); 428] = [
    (0x0041, 0x005A), (0x0061, 0x007A), (0x00C0, 0x00D6), (0x00D8, 0x00F6),
    (0x00F8, 0x024F), (0x0250, 0x02AF), (0x0370, 0x0373), (0x0376, 0x0377),
    (0x037A, 0x037D), (0x0386, 0x0386), (0x0388, 0x038A), (0x038C, 0x038C),
    (0x038E, 0x03A1), (0x03A3, 0x03CF), (0x03D0, 0x03FF), (0x0400, 0x0484),
    (0x0487, 0x052F), (0x0531, 0x0556), (0x0561, 0x0587), (0x0589, 0x058A),
    (0x0591, 0x05BD), (0x05BF, 0x05BF), (0x05C1, 0x05C2), (0x05C4, 0x05C5),
    (0x05C7, 0x05C7), (0x05D0, 0x05EA), (0x05F0, 0x05F2), (0x0610, 0x061A),
    (0x0621, 0x063F), (0x0641, 0x064A), (0x064B, 0x0657), (0x0659, 0x065F),
    (0x066E, 0x06D3), (0x06D5, 0x06DC), (0x06E1, 0x06E8), (0x06EA, 0x06ED),
    (0x06F0, 0x06F9), (0x06FA, 0x06FC), (0x06FF, 0x06FF), (0x0710, 0x074A),
    (0x074D, 0x07B1), (0x07C0, 0x07F5), (0x07FA, 0x07FA), (0x0800, 0x082D),
    (0x0840, 0x085B), (0x08A0, 0x08B4), (0x08B6, 0x08BD), (0x0900, 0x0977),
    (0x0979, 0x097F), (0x0981, 0x0983), (0x0985, 0x098C), (0x098F, 0x0990),
    (0x0993, 0x09A8), (0x09AA, 0x09B0), (0x09B2, 0x09B2), (0x09B6, 0x09B9),
    (0x09BC, 0x09C4), (0x09C7, 0x09C8), (0x09CB, 0x09CE), (0x09D7, 0x09D7),
    (0x09DC, 0x09DD), (0x09DF, 0x09E3), (0x09E6, 0x09FB), (0x0A01, 0x0A03),
    (0x0A05, 0x0A0A), (0x0A0F, 0x0A10), (0x0A13, 0x0A28), (0x0A2A, 0x0A30),
    (0x0A32, 0x0A33), (0x0A35, 0x0A36), (0x0A38, 0x0A39), (0x0A3C, 0x0A3C),
    (0x0A3E, 0x0A42), (0x0A47, 0x0A48), (0x0A4B, 0x0A4D), (0x0A51, 0x0A51),
    (0x0A59, 0x0A5C), (0x0A5E, 0x0A5E), (0x0A66, 0x0A75), (0x0A81, 0x0A83),
    (0x0A85, 0x0A8D), (0x0A8F, 0x0A91), (0x0A93, 0x0AA8), (0x0AAA, 0x0AB0),
    (0x0AB2, 0x0AB3), (0x0AB5, 0x0AB9), (0x0ABC, 0x0AC5), (0x0AC7, 0x0AC9),
    (0x0ACB, 0x0ACD), (0x0AD0, 0x0AD0), (0x0AE0, 0x0AE3), (0x0AE6, 0x0AEF),
    (0x0AF9, 0x0AFC), (0x0B01, 0x0B03), (0x0B05, 0x0B0C), (0x0B0F, 0x0B10),
    (0x0B13, 0x0B28), (0x0B2A, 0x0B30), (0x0B32, 0x0B33), (0x0B35, 0x0B39),
    (0x0B3C, 0x0B44), (0x0B47, 0x0B48), (0x0B4B, 0x0B4D), (0x0B56, 0x0B57),
    (0x0B5C, 0x0B5D), (0x0B5F, 0x0B63), (0x0B66, 0x0B77), (0x0B82, 0x0B83),
    (0x0B85, 0x0B8A), (0x0B8E, 0x0B90), (0x0B92, 0x0B95), (0x0B99, 0x0B9A),
    (0x0B9C, 0x0B9C), (0x0B9E, 0x0B9F), (0x0BA3, 0x0BA4), (0x0BA8, 0x0BAA),
    (0x0BAE, 0x0BB9), (0x0BBE, 0x0BC2), (0x0BC6, 0x0BC8), (0x0BCA, 0x0BCD),
    (0x0BD0, 0x0BD0), (0x0BD7, 0x0BD7), (0x0BE6, 0x0BFA), (0x0C01, 0x0C03),
    (0x0C05, 0x0C0C), (0x0C0E, 0x0C10), (0x0C12, 0x0C28), (0x0C2A, 0x0C39),
    (0x0C3D, 0x0C44), (0x0C46, 0x0C48), (0x0C4A, 0x0C4D), (0x0C55, 0x0C56),
    (0x0C58, 0x0C5A), (0x0C60, 0x0C63), (0x0C66, 0x0C6F), (0x0C78, 0x0C7F),
    (0x0C82, 0x0C83), (0x0C85, 0x0C8C), (0x0C8E, 0x0C90), (0x0C92, 0x0CA8),
    (0x0CAA, 0x0CB3), (0x0CB5, 0x0CB9), (0x0CBC, 0x0CC4), (0x0CC6, 0x0CC8),
    (0x0CCA, 0x0CCD), (0x0CD5, 0x0CD6), (0x0CDE, 0x0CDE), (0x0CE0, 0x0CE3),
    (0x0CE6, 0x0CEF), (0x0CF1, 0x0CF2), (0x0D02, 0x0D03), (0x0D05, 0x0D0C),
    (0x0D0E, 0x0D10), (0x0D12, 0x0D3A), (0x0D3D, 0x0D44), (0x0D46, 0x0D48),
    (0x0D4A, 0x0D4E), (0x0D57, 0x0D57), (0x0D60, 0x0D63), (0x0D66, 0x0D75),
    (0x0D79, 0x0D7F), (0x0D82, 0x0D83), (0x0D85, 0x0D96), (0x0D9A, 0x0DB1),
    (0x0DB3, 0x0DBB), (0x0DBD, 0x0DBD), (0x0DC0, 0x0DC6), (0x0DCA, 0x0DCA),
    (0x0DCF, 0x0DD4), (0x0DD6, 0x0DD6), (0x0DD8, 0x0DDF), (0x0DF2, 0x0DF4),
    (0x0E01, 0x0E3A), (0x0E40, 0x0E4E), (0x0E50, 0x0E59), (0x0E81, 0x0E82),
    (0x0E84, 0x0E84), (0x0E87, 0x0E88), (0x0E8A, 0x0E8A), (0x0E8D, 0x0E8D),
    (0x0E94, 0x0E97), (0x0E99, 0x0E9F), (0x0EA1, 0x0EA3), (0x0EA5, 0x0EA5),
    (0x0EA7, 0x0EA7), (0x0EAA, 0x0EAB), (0x0EAD, 0x0EB9), (0x0EBB, 0x0EBD),
    (0x0EC0, 0x0EC4), (0x0EC6, 0x0EC6), (0x0EC8, 0x0ECD), (0x0ED0, 0x0ED9),
    (0x0EDC, 0x0EDF), (0x0F00, 0x0F47), (0x0F49, 0x0F6C), (0x0F71, 0x0F97),
    (0x0F99, 0x0FBC), (0x0FBE, 0x0FCC), (0x0FCE, 0x0FD4), (0x1000, 0x109F),
    (0x10A0, 0x10C5), (0x10C7, 0x10C7), (0x10CD, 0x10CD), (0x10D0, 0x10FA),
    (0x10FC, 0x1248), (0x124A, 0x124D), (0x1250, 0x1256), (0x1258, 0x1258),
    (0x125A, 0x125D), (0x1260, 0x1288), (0x128A, 0x128D), (0x1290, 0x12B0),
    (0x12B2, 0x12B5), (0x12B8, 0x12BE), (0x12C0, 0x12C0), (0x12C2, 0x12C5),
    (0x12C8, 0x12D6), (0x12D8, 0x1310), (0x1312, 0x1315), (0x1318, 0x135A),
    (0x1369, 0x137C), (0x1380, 0x138F), (0x13A0, 0x13F5), (0x13F8, 0x13FD),
    (0x1401, 0x166C), (0x166F, 0x167F), (0x1681, 0x169A), (0x16A0, 0x16EA),
    (0x16EE, 0x16F8), (0x1700, 0x1711), (0x171F, 0x1731), (0x1734, 0x1736),
    (0x1740, 0x1751), (0x1760, 0x176C), (0x176E, 0x1770), (0x1772, 0x1773),
    (0x1780, 0x17B3), (0x17B6, 0x17D3), (0x17D7, 0x17DC), (0x17DD, 0x17DD),
    (0x17E0, 0x17E9), (0x180B, 0x180D), (0x1810, 0x1819), (0x1820, 0x1878),
    (0x1880, 0x18A8), (0x18AA, 0x18AA), (0x18B0, 0x18F5), (0x1900, 0x191E),
    (0x1920, 0x192B), (0x1930, 0x1938), (0x1946, 0x196D), (0x1970, 0x1974),
    (0x1980, 0x19AB), (0x19B0, 0x19C9), (0x19D0, 0x19DA), (0x1A00, 0x1A16),
    (0x1A20, 0x1A54), (0x1A80, 0x1A89), (0x1A90, 0x1A99), (0x1AA0, 0x1AAD),
    (0x1B05, 0x1B33), (0x1B45, 0x1B4B), (0x1B83, 0x1BA0), (0x1BAE, 0x1BAF),
    (0x1BBA, 0x1BE5), (0x1C00, 0x1C23), (0x1C4D, 0x1C4F), (0x1C5A, 0x1C7D),
    (0x1C80, 0x1C88), (0x1C90, 0x1CBA), (0x1CBD, 0x1CBF), (0x1CE9, 0x1CEC),
    (0x1CEE, 0x1CF3), (0x1CF5, 0x1CF6), (0x1CFA, 0x1CFA), (0x1D00, 0x1DBF),
    (0x1E00, 0x1F15), (0x1F18, 0x1F1D), (0x1F20, 0x1F45), (0x1F48, 0x1F4D),
    (0x1F50, 0x1F57), (0x1F59, 0x1F59), (0x1F5B, 0x1F5B), (0x1F5D, 0x1F5D),
    (0x1F5F, 0x1F7D), (0x1F80, 0x1FB4), (0x1FB6, 0x1FBC), (0x1FBE, 0x1FBE),
    (0x1FC2, 0x1FC4), (0x1FC6, 0x1FCC), (0x1FD0, 0x1FD3), (0x1FD6, 0x1FDB),
    (0x1FE0, 0x1FEC), (0x1FF2, 0x1FF4), (0x1FF6, 0x1FFC), (0x2071, 0x2071),
    (0x207F, 0x207F), (0x2090, 0x209C), (0x2102, 0x2102), (0x2107, 0x2107),
    (0x210A, 0x2113), (0x2115, 0x2115), (0x2119, 0x211D), (0x2124, 0x2124),
    (0x2126, 0x2126), (0x2128, 0x2128), (0x212A, 0x212D), (0x212F, 0x2139),
    (0x213C, 0x213F), (0x2145, 0x2149), (0x214E, 0x214E), (0x2160, 0x2188),
    (0x24B6, 0x24E9), (0x2C00, 0x2C2E), (0x2C30, 0x2C5E), (0x2C60, 0x2CE4),
    (0x2CEB, 0x2CEE), (0x2CF2, 0x2CF3), (0x2D00, 0x2D25), (0x2D27, 0x2D27),
    (0x2D2D, 0x2D2D), (0x2D30, 0x2D67), (0x2D6F, 0x2D70), (0x2D80, 0x2D96),
    (0x2DA0, 0x2DA6), (0x2DA8, 0x2DAE), (0x2DB0, 0x2DB6), (0x2DB8, 0x2DBE),
    (0x2DC0, 0x2DC6), (0x2DC8, 0x2DCE), (0x2DD0, 0x2DD6), (0x2DD8, 0x2DDE),
    (0x2E2F, 0x2E2F), (0x3005, 0x3007), (0x3021, 0x3029), (0x3031, 0x3035),
    (0x3038, 0x303C), (0x3041, 0x3096), (0x309D, 0x309F), (0x30A1, 0x30FA),
    (0x30FC, 0x30FF), (0x3105, 0x312F), (0x3131, 0x318E), (0x31A0, 0x31BA),
    (0x31F0, 0x31FF), (0x3400, 0x4DB5), (0x4E00, 0x9FEF), (0xA000, 0xA48C),
    (0xA4D0, 0xA4FD), (0xA500, 0xA60C), (0xA610, 0xA61F), (0xA62A, 0xA62B),
    (0xA640, 0xA66E), (0xA674, 0xA67B), (0xA67F, 0xA6EF), (0xA717, 0xA71F),
    (0xA722, 0xA788), (0xA78B, 0xA7BF), (0xA7C2, 0xA7C6), (0xA7F7, 0xA801),
    (0xA803, 0xA805), (0xA807, 0xA80A), (0xA80C, 0xA822), (0xA840, 0xA873),
    (0xA882, 0xA8B3), (0xA8F2, 0xA8F7), (0xA8FB, 0xA8FB), (0xA8FD, 0xA8FE),
    (0xA90A, 0xA925), (0xA930, 0xA946), (0xA960, 0xA97C), (0xA984, 0xA9B2),
    (0xA9CF, 0xA9CF), (0xA9E0, 0xA9E4), (0xA9E6, 0xA9EF), (0xA9FA, 0xA9FE),
    (0xAA00, 0xAA28), (0xAA40, 0xAA42), (0xAA44, 0xAA4B), (0xAA60, 0xAA76),
    (0xAA7A, 0xAA7A), (0xAA7E, 0xAAAF), (0xAAB1, 0xAAB1), (0xAAB5, 0xAAB6),
    (0xAAB9, 0xAABD), (0xAAC0, 0xAAC0), (0xAAC2, 0xAAC2), (0xAADB, 0xAADC),
    (0xAADD, 0xAADD), (0xAAE0, 0xAAEA), (0xAAF2, 0xAAF4), (0xAB01, 0xAB06),
    (0xAB09, 0xAB0E), (0xAB11, 0xAB16), (0xAB20, 0xAB26), (0xAB28, 0xAB2E),
    (0xAB30, 0xAB5A), (0xAB5C, 0xAB69), (0xAB6B, 0xAB6B), (0xAB70, 0xABE2),
    (0xAC00, 0xD7A3), (0xD7B0, 0xD7C6), (0xD7CB, 0xD7FB), (0xF900, 0xFA6D),
    (0xFA70, 0xFAD9), (0xFB00, 0xFB06), (0xFB13, 0xFB17), (0xFB1D, 0xFB1D),
    (0xFB1F, 0xFB28), (0xFB2A, 0xFB36), (0xFB38, 0xFB3C), (0xFB3E, 0xFB3E),
    (0xFB40, 0xFB41), (0xFB43, 0xFB44), (0xFB46, 0xFBB1), (0xFBD3, 0xFD3D),
    (0xFD50, 0xFD8F), (0xFD92, 0xFDC7), (0xFDF0, 0xFDFB), (0xFE70, 0xFE74),
    (0xFE76, 0xFEFC), (0xFF21, 0xFF3A), (0xFF41, 0xFF5A), (0xFF66, 0xFFBE),
    (0xFFC2, 0xFFC7), (0xFFCA, 0xFFCF), (0xFFD2, 0xFFD7), (0xFFDA, 0xFFDC),
];

pub const EXTENDED_PICTOGRAPHIC: [(u32, u32); 44] = [
    (0x00A9, 0x00A9), (0x00AE, 0x00AE), (0x203C, 0x203C), (0x2049, 0x2049),
    (0x2122, 0x2122), (0x2139, 0x2139), (0x2194, 0x2199), (0x21A9, 0x21AA),
    (0x231A, 0x231B), (0x2328, 0x2328), (0x2388, 0x2388), (0x23CF, 0x23CF),
    (0x23E9, 0x23F3), (0x23F8, 0x23FA), (0x24C2, 0x24C2), (0x25AA, 0x25AB),
    (0x25B6, 0x25B6), (0x25C0, 0x25C0), (0x25FB, 0x25FE), (0x2600, 0x2700),
    (0x2702, 0x27BF), (0x2934, 0x2935), (0x2B05, 0x2B07), (0x2B1B, 0x2B1C),
    (0x2B50, 0x2B50), (0x2B55, 0x2B55), (0x3030, 0x3030), (0x303D, 0x303D),
    (0x3297, 0x3297), (0x3299, 0x3299), (0x1F000, 0x1F0FF), (0x1F10D, 0x1F10F),
    (0x1F12F, 0x1F12F), (0x1F16C, 0x1F171), (0x1F17E, 0x1F17F), (0x1F18E, 0x1F18E),
    (0x1F191, 0x1F19A), (0x1F1AD, 0x1F1E5), (0x1F201, 0x1F20F), (0x1F21A, 0x1F21A),
    (0x1F22F, 0x1F22F), (0x1F232, 0x1F23A), (0x1F23B, 0x1F23F), (0x1F249, 0x1FFFD),
];
} // verus!

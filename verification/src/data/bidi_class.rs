//! Bidi_Class and Bidi_Paired_Bracket data (UAX #9, BidiBrackets.txt).
//!
//! The per-code-point values come from the Unicode Character Database as
//! compiled into `icu_properties`.
use vstd::prelude::*;

use icu_properties::props::{BidiMirroringGlyph, BidiPairedBracketType};
use icu_properties::CodePointMapData;

verus! {

/// Bidi_Class property value (UAX #9 Table 4).
#[derive(Clone, Copy, Debug, PartialEq, Eq, Structural)]
pub enum BidiClass {
    L,
    R,
    AL,
    EN,
    ES,
    ET,
    AN,
    CS,
    NSM,
    BN,
    B,
    S,
    WS,
    ON,
    LRE,
    LRO,
    RLE,
    RLO,
    PDF,
    LRI,
    RLI,
    FSI,
    PDI,
}

/// The numeric Bidi_Class value that the Unicode Character Database assigns
/// to `cp` (ICU4C `UCharDirection` numbering).
pub uninterp spec fn ucd_bidi_class_value(cp: u32) -> u8;

/// The paired-bracket data of `cp`: its Bidi_Paired_Bracket_Type (1 open,
/// 2 close, 0 none) and its Bidi_Mirroring_Glyph.
pub uninterp spec fn ucd_bidi_bracket(cp: u32) -> (u8, Option<char>);

/// Calls `icu_properties::CodePointMapData::<BidiClass>::get32` and returns
/// the class as its ICU4C number. Claimed: the result is the database value
/// for `cp`, a function of `cp` alone.
#[verifier::external_body]
#[allow(deprecated)]
fn bidi_class_value(cp: u32) -> (v: u8)
    ensures
        v == ucd_bidi_class_value(cp),
{
    CodePointMapData::<icu_properties::props::BidiClass>::new().get32(cp).to_icu4c_value()
}

/// Calls `icu_properties::CodePointMapData::<BidiMirroringGlyph>::get32` and
/// returns the paired bracket type (as 1 open, 2 close, 0 none) with the
/// mirroring glyph. Claimed: the result is the database value for `cp`.
#[verifier::external_body]
fn bidi_bracket(cp: u32) -> (r: (u8, Option<char>))
    ensures
        r == ucd_bidi_bracket(cp),
{
    let g = CodePointMapData::<BidiMirroringGlyph>::new().get32(cp);
    let kind = match g.paired_bracket_type {
        BidiPairedBracketType::Open => 1,
        BidiPairedBracketType::Close => 2,
        _ => 0,
    };
    (kind, g.mirroring_glyph)
}

/// The Bidi_Class named by an ICU4C `UCharDirection` number.
pub open spec fn class_from_value(v: u8) -> BidiClass {
    if v == 0 { BidiClass::L }
    else if v == 1 { BidiClass::R }
    else if v == 2 { BidiClass::EN }
    else if v == 3 { BidiClass::ES }
    else if v == 4 { BidiClass::ET }
    else if v == 5 { BidiClass::AN }
    else if v == 6 { BidiClass::CS }
    else if v == 7 { BidiClass::B }
    else if v == 8 { BidiClass::S }
    else if v == 9 { BidiClass::WS }
    else if v == 10 { BidiClass::ON }
    else if v == 11 { BidiClass::LRE }
    else if v == 12 { BidiClass::LRO }
    else if v == 13 { BidiClass::AL }
    else if v == 14 { BidiClass::RLE }
    else if v == 15 { BidiClass::RLO }
    else if v == 16 { BidiClass::PDF }
    else if v == 17 { BidiClass::NSM }
    else if v == 18 { BidiClass::BN }
    else if v == 19 { BidiClass::FSI }
    else if v == 20 { BidiClass::LRI }
    else if v == 21 { BidiClass::RLI }
    else if v == 22 { BidiClass::PDI }
    else { BidiClass::L }
}

/// The Bidi_Class of code point `cp`.
pub open spec fn spec_bidi_class(cp: u32) -> BidiClass {
    class_from_value(ucd_bidi_class_value(cp))
}

fn class_of_value(v: u8) -> (c: BidiClass)
    ensures
        c == class_from_value(v),
{
    match v {
        0 => BidiClass::L,
        1 => BidiClass::R,
        2 => BidiClass::EN,
        3 => BidiClass::ES,
        4 => BidiClass::ET,
        5 => BidiClass::AN,
        6 => BidiClass::CS,
        7 => BidiClass::B,
        8 => BidiClass::S,
        9 => BidiClass::WS,
        10 => BidiClass::ON,
        11 => BidiClass::LRE,
        12 => BidiClass::LRO,
        13 => BidiClass::AL,
        14 => BidiClass::RLE,
        15 => BidiClass::RLO,
        16 => BidiClass::PDF,
        17 => BidiClass::NSM,
        18 => BidiClass::BN,
        19 => BidiClass::FSI,
        20 => BidiClass::LRI,
        21 => BidiClass::RLI,
        22 => BidiClass::PDI,
        _ => BidiClass::L,
    }
}

/// Returns the Bidi_Class of code point `cp`.
pub fn bidi_class(cp: u32) -> (c: BidiClass)
    ensures
        c == spec_bidi_class(cp),
{
    class_of_value(bidi_class_value(cp))
}

/// `Some(closing)` when `cp` is an opening paired bracket.
pub open spec fn spec_bracket_pair(cp: u32) -> Option<char> {
    if ucd_bidi_bracket(cp).0 == 1 { ucd_bidi_bracket(cp).1 } else { None }
}

/// True when `cp` is a closing paired bracket.
pub open spec fn spec_is_closing_bracket(cp: u32) -> bool {
    ucd_bidi_bracket(cp).0 == 2
}

/// For a closing bracket, the opening bracket it pairs with.
pub open spec fn spec_opening_bracket_for(cp: u32) -> Option<char> {
    if ucd_bidi_bracket(cp).0 == 2 { ucd_bidi_bracket(cp).1 } else { None }
}

/// Returns the closing bracket paired with `cp` when `cp` opens a pair.
pub fn bracket_pair(cp: u32) -> (r: Option<char>)
    ensures
        r == spec_bracket_pair(cp),
{
    let (kind, glyph) = bidi_bracket(cp);
    if kind == 1 { glyph } else { None }
}

/// True when `cp` is a closing paired bracket.
pub fn is_closing_bracket(cp: u32) -> (r: bool)
    ensures
        r == spec_is_closing_bracket(cp),
{
    let (kind, _) = bidi_bracket(cp);
    kind == 2
}

/// Returns the opening bracket that the closing bracket `cp` pairs with.
pub fn opening_bracket_for(cp: u32) -> (r: Option<char>)
    ensures
        r == spec_opening_bracket_for(cp),
{
    let (kind, glyph) = bidi_bracket(cp);
    if kind == 2 { glyph } else { None }
}

} // verus!

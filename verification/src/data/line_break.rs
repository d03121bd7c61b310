//! Line_Break property (UAX #14) and East_Asian_Width (UAX #11).
//!
//! The per-code-point values come from the Unicode Character Database as
//! compiled into `icu_properties`.
use vstd::prelude::*;

use icu_properties::props::{EastAsianWidth, LineBreak};
use icu_properties::CodePointMapData;

verus! {

/// Line_Break property value (UAX #14 Table 1).
#[derive(Clone, Copy, Debug, PartialEq, Eq, Structural)]
pub enum Lb {
    XX, AI, AL, B2, BA, BB, BK, CB, CL, CM, CR, EX, GL, HY, ID, IN, IS, LF, NS, NU, OP, PO, PR,
    QU, SA, SG, SP, SY, ZW, NL, WJ, H2, H3, JL, JT, JV, CP, CJ, HL, RI, EB, EM, ZWJ, AK, AP,
    AS, VF, VI, HH,
}

/// The numeric Line_Break value that the Unicode Character Database assigns
/// to `cp` (ICU4C `ULineBreak` numbering).
pub uninterp spec fn ucd_line_break_value(cp: u32) -> u8;

/// The numeric East_Asian_Width value of `cp` (ICU4C numbering: 0 N,
/// 1 A, 2 H, 3 F, 4 Na, 5 W).
pub uninterp spec fn ucd_east_asian_width_value(cp: u32) -> u8;

/// Calls `icu_properties::CodePointMapData::<LineBreak>::get32` and returns
/// the value as its ICU4C number. Claimed: the result is the database value
/// for `cp`, a function of `cp` alone.
#[verifier::external_body]
#[allow(deprecated)]
fn line_break_value(cp: u32) -> (v: u8)
    ensures
        v == ucd_line_break_value(cp),
{
    CodePointMapData::<LineBreak>::new().get32(cp).to_icu4c_value()
}

/// Calls `icu_properties::CodePointMapData::<EastAsianWidth>::get32` and
/// returns the value as its ICU4C number. Claimed: the result is the
/// database value for `cp`, a function of `cp` alone.
#[verifier::external_body]
#[allow(deprecated)]
fn east_asian_width_value(cp: u32) -> (v: u8)
    ensures
        v == ucd_east_asian_width_value(cp),
{
    CodePointMapData::<EastAsianWidth>::new().get32(cp).to_icu4c_value()
}

/// The Line_Break class named by an ICU4C `ULineBreak` number (unknown
/// numbers are XX).
pub open spec fn lb_from_value(v: u8) -> Lb {
    if v == 1 { Lb::AI } else if v == 2 { Lb::AL } else if v == 3 { Lb::B2 }
    else if v == 4 { Lb::BA } else if v == 5 { Lb::BB } else if v == 6 { Lb::BK }
    else if v == 7 { Lb::CB } else if v == 8 { Lb::CL } else if v == 9 { Lb::CM }
    else if v == 10 { Lb::CR } else if v == 11 { Lb::EX } else if v == 12 { Lb::GL }
    else if v == 13 { Lb::HY } else if v == 14 { Lb::ID } else if v == 15 { Lb::IN }
    else if v == 16 { Lb::IS } else if v == 17 { Lb::LF } else if v == 18 { Lb::NS }
    else if v == 19 { Lb::NU } else if v == 20 { Lb::OP } else if v == 21 { Lb::PO }
    else if v == 22 { Lb::PR } else if v == 23 { Lb::QU } else if v == 24 { Lb::SA }
    else if v == 25 { Lb::SG } else if v == 26 { Lb::SP } else if v == 27 { Lb::SY }
    else if v == 28 { Lb::ZW } else if v == 29 { Lb::NL } else if v == 30 { Lb::WJ }
    else if v == 31 { Lb::H2 } else if v == 32 { Lb::H3 } else if v == 33 { Lb::JL }
    else if v == 34 { Lb::JT } else if v == 35 { Lb::JV } else if v == 36 { Lb::CP }
    else if v == 37 { Lb::CJ } else if v == 38 { Lb::HL } else if v == 39 { Lb::RI }
    else if v == 40 { Lb::EB } else if v == 41 { Lb::EM } else if v == 42 { Lb::ZWJ }
    else if v == 43 { Lb::AK } else if v == 44 { Lb::AP } else if v == 45 { Lb::AS }
    else if v == 46 { Lb::VF } else if v == 47 { Lb::VI } else if v == 48 { Lb::HH }
    else { Lb::XX }
}

/// The Line_Break class of `c`.
pub open spec fn spec_lb(c: char) -> Lb {
    lb_from_value(ucd_line_break_value(c as u32))
}

/// Returns the Line_Break class of `c`.
pub fn lb(c: char) -> (r: Lb)
    ensures
        r == spec_lb(c),
{
    match line_break_value(c as u32) {
        1 => Lb::AI, 2 => Lb::AL, 3 => Lb::B2, 4 => Lb::BA, 5 => Lb::BB, 6 => Lb::BK,
        7 => Lb::CB, 8 => Lb::CL, 9 => Lb::CM, 10 => Lb::CR, 11 => Lb::EX, 12 => Lb::GL,
        13 => Lb::HY, 14 => Lb::ID, 15 => Lb::IN, 16 => Lb::IS, 17 => Lb::LF, 18 => Lb::NS,
        19 => Lb::NU, 20 => Lb::OP, 21 => Lb::PO, 22 => Lb::PR, 23 => Lb::QU, 24 => Lb::SA,
        25 => Lb::SG, 26 => Lb::SP, 27 => Lb::SY, 28 => Lb::ZW, 29 => Lb::NL, 30 => Lb::WJ,
        31 => Lb::H2, 32 => Lb::H3, 33 => Lb::JL, 34 => Lb::JT, 35 => Lb::JV, 36 => Lb::CP,
        37 => Lb::CJ, 38 => Lb::HL, 39 => Lb::RI, 40 => Lb::EB, 41 => Lb::EM, 42 => Lb::ZWJ,
        43 => Lb::AK, 44 => Lb::AP, 45 => Lb::AS, 46 => Lb::VF, 47 => Lb::VI, 48 => Lb::HH,
        _ => Lb::XX,
    }
}

/// East_Asian_Width F, W or H (the `$EastAsian` set of UAX #14 LB19a).
pub open spec fn spec_is_east_asian_wide(cp: u32) -> bool {
    let v = ucd_east_asian_width_value(cp);
    v == 2 || v == 3 || v == 5
}

/// Whether `cp` has East_Asian_Width F, W or H.
pub fn is_east_asian_wide(cp: u32) -> (r: bool)
    ensures
        r == spec_is_east_asian_wide(cp),
{
    let v = east_asian_width_value(cp);
    v == 2 || v == 3 || v == 5
}

} // verus!

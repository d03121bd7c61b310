//! Grapheme_Cluster_Break property (UAX #29 Table 2), refined with the
//! Indic_Conjunct_Break and Extended_Pictographic properties.
//!
//! The per-code-point values come from the Unicode Character Database as
//! compiled into `icu_properties`.
use vstd::prelude::*;

use icu_properties::props::{GraphemeClusterBreak, IndicConjunctBreak};
use icu_properties::CodePointMapData;

use crate::data::word_break::{is_extended_pictographic, spec_is_extended_pictographic};

verus! {

/// Grapheme cluster break class of a character.
#[derive(Clone, Copy, Debug, PartialEq, Eq, Structural)]
pub enum Gcb {
    Other,
    Cr,
    Lf,
    Control,
    Extend,
    Zwj,
    RegionalIndicator,
    Prepend,
    SpacingMark,
    L,
    V,
    T,
    Lv,
    Lvt,
    ExtendedPictographic,
    /// Indic_Conjunct_Break = Consonant.
    IndicLetter,
    /// Indic_Conjunct_Break = Linker (viramas).
    ConjunctLinker,
}

/// The numeric Grapheme_Cluster_Break value that the Unicode Character
/// Database assigns to `cp` (ICU4C `UGraphemeClusterBreak` numbering).
pub uninterp spec fn ucd_grapheme_cluster_break_value(cp: u32) -> u8;

/// The numeric Indic_Conjunct_Break value of `cp` (ICU4C numbering:
/// 0 None, 1 Consonant, 2 Extend, 3 Linker).
pub uninterp spec fn ucd_indic_conjunct_break_value(cp: u32) -> u8;

/// Calls `icu_properties::CodePointMapData::<GraphemeClusterBreak>::get32`
/// and returns the value as its ICU4C number. Claimed: the result is the
/// database value for `cp`, a function of `cp` alone.
#[verifier::external_body]
#[allow(deprecated)]
fn grapheme_cluster_break_value(cp: u32) -> (v: u8)
    ensures
        v == ucd_grapheme_cluster_break_value(cp),
{
    CodePointMapData::<GraphemeClusterBreak>::new().get32(cp).to_icu4c_value()
}

/// Calls `icu_properties::CodePointMapData::<IndicConjunctBreak>::get32`
/// and returns the value as its ICU4C number. Claimed: the result is the
/// database value for `cp`, a function of `cp` alone.
#[verifier::external_body]
#[allow(deprecated)]
fn indic_conjunct_break_value(cp: u32) -> (v: u8)
    ensures
        v == ucd_indic_conjunct_break_value(cp),
{
    CodePointMapData::<IndicConjunctBreak>::new().get32(cp).to_icu4c_value()
}

/// The class of `c`: InCB Linker characters are conjunct linkers; the
/// Grapheme_Cluster_Break value otherwise, where an Other character is
/// Extended_Pictographic or an Indic consonant when it has that property.
pub open spec fn spec_gcb(c: char) -> Gcb {
    let v = ucd_grapheme_cluster_break_value(c as u32);
    let incb = ucd_indic_conjunct_break_value(c as u32);
    if incb == 3 {
        Gcb::ConjunctLinker
    } else if v == 1 {
        Gcb::Control
    } else if v == 2 {
        Gcb::Cr
    } else if v == 3 || v == 15 {
        Gcb::Extend
    } else if v == 4 {
        Gcb::L
    } else if v == 5 {
        Gcb::Lf
    } else if v == 6 {
        Gcb::Lv
    } else if v == 7 {
        Gcb::Lvt
    } else if v == 8 {
        Gcb::T
    } else if v == 9 {
        Gcb::V
    } else if v == 10 {
        Gcb::SpacingMark
    } else if v == 11 {
        Gcb::Prepend
    } else if v == 12 {
        Gcb::RegionalIndicator
    } else if v == 17 {
        Gcb::Zwj
    } else if spec_is_extended_pictographic(c) {
        Gcb::ExtendedPictographic
    } else if incb == 1 {
        Gcb::IndicLetter
    } else {
        Gcb::Other
    }
}

/// Returns the grapheme cluster break class of `c`.
pub fn gcb(c: char) -> (g: Gcb)
    ensures
        g == spec_gcb(c),
{
    let v = grapheme_cluster_break_value(c as u32);
    let incb = indic_conjunct_break_value(c as u32);
    if incb == 3 {
        Gcb::ConjunctLinker
    } else {
        match v {
            1 => Gcb::Control,
            2 => Gcb::Cr,
            3 | 15 => Gcb::Extend,
            4 => Gcb::L,
            5 => Gcb::Lf,
            6 => Gcb::Lv,
            7 => Gcb::Lvt,
            8 => Gcb::T,
            9 => Gcb::V,
            10 => Gcb::SpacingMark,
            11 => Gcb::Prepend,
            12 => Gcb::RegionalIndicator,
            17 => Gcb::Zwj,
            _ => {
                if is_extended_pictographic(c) {
                    Gcb::ExtendedPictographic
                } else if incb == 1 {
                    Gcb::IndicLetter
                } else {
                    Gcb::Other
                }
            },
        }
    }
}

} // verus!

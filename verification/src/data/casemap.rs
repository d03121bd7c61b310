//! Case mapping data: simple and full lowercase, uppercase and titlecase
//! mappings and case foldings (UnicodeData.txt, SpecialCasing.txt,
//! CaseFolding.txt), as compiled into `icu_casemap`.
use vstd::prelude::*;

use icu_casemap::CaseMapper;
use icu_locale_core::LanguageIdentifier;

verus! {

/// The simple lowercase mapping of `c` (`c` itself when it has none).
pub uninterp spec fn ucd_simple_lowercase(c: char) -> char;

/// The simple uppercase mapping of `c` (`c` itself when it has none).
pub uninterp spec fn ucd_simple_uppercase(c: char) -> char;

/// The simple case folding of `c` (`c` itself when it has none).
pub uninterp spec fn ucd_simple_fold(c: char) -> char;

/// The full lowercase mapping of `c` on its own, in the root locale.
pub uninterp spec fn ucd_full_lowercase(c: char) -> Seq<char>;

/// The full uppercase mapping of `c` on its own, in the root locale.
pub uninterp spec fn ucd_full_uppercase(c: char) -> Seq<char>;

/// The full titlecase mapping of `c` on its own, in the root locale.
pub uninterp spec fn ucd_full_titlecase(c: char) -> Seq<char>;

/// The full case folding of `c`.
pub uninterp spec fn ucd_full_fold(c: char) -> Seq<char>;

/// The full case folding of `c` with the Turkic mappings for I and İ.
pub uninterp spec fn ucd_full_fold_turkic(c: char) -> Seq<char>;

/// Calls `CaseMapperBorrowed::simple_lowercase`. Claimed: the result is the
/// database mapping of `c`.
#[verifier::external_body]
pub(crate) fn simple_lowercase(c: char) -> (r: char)
    ensures
        r == ucd_simple_lowercase(c),
{
    CaseMapper::new().simple_lowercase(c)
}

/// Calls `CaseMapperBorrowed::simple_uppercase`. Claimed: the result is the
/// database mapping of `c`.
#[verifier::external_body]
pub(crate) fn simple_uppercase(c: char) -> (r: char)
    ensures
        r == ucd_simple_uppercase(c),
{
    CaseMapper::new().simple_uppercase(c)
}

/// Calls `CaseMapperBorrowed::simple_fold`. Claimed: the result is the
/// database folding of `c`.
#[verifier::external_body]
pub(crate) fn simple_fold(c: char) -> (r: char)
    ensures
        r == ucd_simple_fold(c),
{
    CaseMapper::new().simple_fold(c)
}

/// Calls `CaseMapperBorrowed::lowercase_to_string` on the one-character
/// string `c`, in the root locale, and returns its characters. Claimed: the
/// result is a function of `c` alone.
#[verifier::external_body]
pub(crate) fn full_lowercase(c: char) -> (r: Vec<char>)
    ensures
        r@ == ucd_full_lowercase(c),
{
    let s = c.to_string();
    CaseMapper::new().lowercase_to_string(&s, &LanguageIdentifier::UNKNOWN).chars().collect()
}

/// Calls `CaseMapperBorrowed::uppercase_to_string` on the one-character
/// string `c`, in the root locale, and returns its characters. Claimed: the
/// result is a function of `c` alone.
#[verifier::external_body]
pub(crate) fn full_uppercase(c: char) -> (r: Vec<char>)
    ensures
        r@ == ucd_full_uppercase(c),
{
    let s = c.to_string();
    CaseMapper::new().uppercase_to_string(&s, &LanguageIdentifier::UNKNOWN).chars().collect()
}

/// Calls `CaseMapperBorrowed::titlecase_segment_with_only_case_data_to_string`
/// on the one-character string `c`, in the root locale with the default
/// options, and returns its characters. Claimed: the result is a function
/// of `c` alone.
#[verifier::external_body]
pub(crate) fn full_titlecase(c: char) -> (r: Vec<char>)
    ensures
        r@ == ucd_full_titlecase(c),
{
    let s = c.to_string();
    CaseMapper::new()
        .titlecase_segment_with_only_case_data_to_string(&s, &LanguageIdentifier::UNKNOWN, Default::default())
        .chars()
        .collect()
}

/// Calls `CaseMapperBorrowed::fold_string` on the one-character string `c`
/// and returns its characters. Claimed: the result is a function of `c`.
#[verifier::external_body]
pub(crate) fn full_fold(c: char) -> (r: Vec<char>)
    ensures
        r@ == ucd_full_fold(c),
{
    let s = c.to_string();
    CaseMapper::new().fold_string(&s).chars().collect()
}

/// Calls `CaseMapperBorrowed::fold_turkic_string` on the one-character
/// string `c` and returns its characters. Claimed: the result is a
/// function of `c`.
#[verifier::external_body]
pub(crate) fn full_fold_turkic(c: char) -> (r: Vec<char>)
    ensures
        r@ == ucd_full_fold_turkic(c),
{
    let s = c.to_string();
    CaseMapper::new().fold_turkic_string(&s).chars().collect()
}

} // verus!

//! Normalization data: Canonical_Combining_Class, full canonical and
//! compatibility decompositions, and canonical composition pairs.
//!
//! The values come from the Unicode Character Database as compiled into
//! `unicode-normalization`.
use vstd::prelude::*;

verus! {

/// The Canonical_Combining_Class of `c`.
pub uninterp spec fn ucd_ccc(c: char) -> u8;

/// The full (recursive) canonical decomposition of `c`; `c` itself when it
/// has none.
pub uninterp spec fn ucd_canonical_decomposition(c: char) -> Seq<char>;

/// The full (recursive) compatibility decomposition of `c`; `c` itself when
/// it has none.
pub uninterp spec fn ucd_compatibility_decomposition(c: char) -> Seq<char>;

/// The primary composite of the pair `(a, b)`, if there is one.
pub uninterp spec fn ucd_compose(a: char, b: char) -> Option<char>;

/// Appends `c` to `out`; handed to the decomposition functions.
pub(crate) fn push_char(out: &mut Vec<char>, c: char)
    ensures
        final(out)@ == old(out)@.push(c),
{
    out.push(c);
}

/// Calls `unicode_normalization::char::canonical_combining_class`. Claimed:
/// the result is the database value for `c`.
#[verifier::external_body]
pub(crate) fn ccc(c: char) -> (r: u8)
    ensures
        r == ucd_ccc(c),
{
    unicode_normalization::char::canonical_combining_class(c)
}

/// Calls `unicode_normalization::char::decompose_canonical`, collecting what
/// it emits. Claimed: the result is the database decomposition of `c`; it is
/// never empty, and an ASCII character (U+0000..U+007F) decomposes to itself.
#[verifier::external_body]
pub(crate) fn canonical_decomposition(c: char) -> (r: Vec<char>)
    ensures
        r@ == ucd_canonical_decomposition(c),
        r@.len() >= 1,
        (c as u32) <= 0x7F ==> r@ == seq![c],
{
    let mut out: Vec<char> = Vec::new();
    unicode_normalization::char::decompose_canonical(c, |d| push_char(&mut out, d));
    out
}

/// Calls `unicode_normalization::char::decompose_compatible`, collecting what
/// it emits. Claimed: the result is the database decomposition of `c`; it is
/// never empty, and an ASCII character decomposes to itself.
#[verifier::external_body]
pub(crate) fn compatibility_decomposition(c: char) -> (r: Vec<char>)
    ensures
        r@ == ucd_compatibility_decomposition(c),
        r@.len() >= 1,
        (c as u32) <= 0x7F ==> r@ == seq![c],
{
    let mut out: Vec<char> = Vec::new();
    unicode_normalization::char::decompose_compatible(c, |d| push_char(&mut out, d));
    out
}

/// Calls `unicode_normalization::char::compose`. Claimed: the result is the
/// database composition of the pair.
#[verifier::external_body]
pub(crate) fn canonical_composition(a: char, b: char) -> (r: Option<char>)
    ensures
        r == ucd_compose(a, b),
{
    unicode_normalization::char::compose(a, b)
}

} // verus!

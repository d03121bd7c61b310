//! Display width in terminal column cells: East Asian wide and full-width
//! characters take two cells, combining marks, joiners and controls none,
//! everything else one.
use vstd::prelude::*;

use crate::data::grapheme_break::{gcb, spec_gcb, Gcb};
use crate::data::line_break::{is_east_asian_wide, spec_is_east_asian_wide};
use crate::text::chars_of;

verus! {

/// The number of cells that `c` occupies.
pub open spec fn spec_char_width(c: char) -> nat {
    let cp = c as u32;
    let g = spec_gcb(c);
    if c == '\n' || c == '\r' || c == '\u{0008}' {
        0
    } else if g == Gcb::Extend || g == Gcb::Zwj || g == Gcb::SpacingMark || g == Gcb::ConjunctLinker {
        0
    } else if cp <= 0x1F || (0x7F <= cp && cp <= 0x9F) {
        0
    } else if spec_is_east_asian_wide(cp) {
        2
    } else {
        1
    }
}

/// The number of cells that `cs` occupies: the sum of its characters' widths.
pub open spec fn spec_width(cs: Seq<char>) -> nat
    decreases cs.len(),
{
    if cs.len() == 0 {
        0
    } else {
        spec_width(cs.drop_last()) + spec_char_width(cs.last())
    }
}

/// Width is additive over concatenation.
pub proof fn lemma_width_concat(a: Seq<char>, b: Seq<char>)
    ensures
        spec_width(a + b) == spec_width(a) + spec_width(b),
    decreases b.len(),
{
    if b.len() == 0 {
        assert(a + b == a);
    } else {
        assert((a + b).drop_last() == a + b.drop_last());
        lemma_width_concat(a, b.drop_last());
    }
}

/// Each character takes at most two cells.
pub proof fn lemma_width_bound(cs: Seq<char>)
    ensures
        spec_width(cs) <= 2 * cs.len(),
    decreases cs.len(),
{
    if cs.len() > 0 {
        lemma_width_bound(cs.drop_last());
    }
}

/// The display width of a single character: 0, 1 or 2 cells.
pub fn char_width(ch: char) -> (w: u32)
    ensures
        w == spec_char_width(ch),
        w <= 2,
{
    let cp = ch as u32;
    if ch == '\n' || ch == '\r' || ch == '\u{0008}' {
        return 0;
    }
    let g = gcb(ch);
    if g == Gcb::Extend || g == Gcb::Zwj || g == Gcb::SpacingMark || g == Gcb::ConjunctLinker {
        return 0;
    }
    if cp <= 0x1F || (0x7F <= cp && cp <= 0x9F) {
        return 0;
    }
    if is_east_asian_wide(cp) {
        return 2;
    }
    1
}

/// The display width of `s` in column cells.
pub fn display_width(s: &str) -> (w: u32)
    requires
        spec_width(s@) <= u32::MAX,
    ensures
        w == spec_width(s@),
{
    let cs = chars_of(s);
    let mut w: u32 = 0;
    let mut k: usize = 0;
    while k < cs.len()
        invariant
            k <= cs@.len(),
            cs@ == s@,
            spec_width(s@) <= u32::MAX,
            w == spec_width(cs@.take(k as int)),
        decreases cs@.len() - k,
    {
        proof {
            assert(cs@.take(k + 1).drop_last() == cs@.take(k as int));
            lemma_width_concat(cs@.take(k + 1), cs@.skip(k + 1));
            assert(cs@.take(k + 1) + cs@.skip(k + 1) == cs@);
        }
        w = w + char_width(cs[k]);
        k += 1;
    }
    proof {
        assert(cs@.take(k as int) == cs@);
    }
    w
}

/// The display width of `s` when it fits in a `u32`, else `None`.
pub fn try_display_width(s: &str) -> (r: Option<u32>)
    ensures
        r == (if spec_width(s@) <= u32::MAX { Some(spec_width(s@) as u32) } else { None }),
{
    let cs = chars_of(s);
    let mut w: u64 = 0;
    let mut k: usize = 0;
    while k < cs.len()
        invariant
            k <= cs@.len(),
            cs@ == s@,
            w <= u32::MAX,
            w == spec_width(cs@.take(k as int)),
        decreases cs@.len() - k,
    {
        proof {
            assert(cs@.take(k + 1).drop_last() == cs@.take(k as int));
        }
        w = w + char_width(cs[k]) as u64;
        k += 1;
        if w > 0xFFFF_FFFFu64 {
            proof {
                lemma_width_concat(cs@.take(k as int), cs@.skip(k as int));
                assert(cs@.take(k as int) + cs@.skip(k as int) == cs@);
            }
            return None;
        }
    }
    proof {
        assert(cs@.take(k as int) == cs@);
    }
    Some(w as u32)
}

} // verus!

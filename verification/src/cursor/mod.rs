//! Cursor movement and editing on grapheme clusters (UAX #29) and, for the
//! visual-order operations, bidi levels (UAX #9).
use vstd::prelude::*;

pub mod visual;

use self::visual::{boundary_bytes, lemma_boundary_bytes, lemma_first_above_next, lemma_last_below_prev};
pub use self::visual::{move_left_visual, move_left_visual_indexed, move_right_visual, move_right_visual_indexed,
    visual_cursor_stops};

use crate::segment::grapheme::{grapheme_boundaries, grapheme_byte_starts, grapheme_starts, lemma_cluster_starts};
use crate::segment::word::{word_boundaries, word_starts};
use crate::text::{byte_len, byte_offsets, byte_pos, char_index, chars_of, find_char_index, is_char_start,
    is_white_space, ranges_contain, WHITE_SPACE,
    lemma_byte_pos_mono, str_len, string_from_two_ranges};


verus! {

/// The first value of `bs` from index `k` on that is above `cur`, else `dflt`.
pub open spec fn first_above(bs: Seq<usize>, cur: int, k: int, dflt: int) -> int
    decreases bs.len() - k,
{
    if k < 0 || k >= bs.len() {
        dflt
    } else if bs[k] > cur {
        bs[k] as int
    } else {
        first_above(bs, cur, k + 1, dflt)
    }
}

/// The last value of `bs` before the first one at or above `cur` (from
/// index `k` on, `prev` so far).
pub open spec fn last_below(bs: Seq<usize>, cur: int, k: int, prev: int) -> int
    decreases bs.len() - k,
{
    if k < 0 || k >= bs.len() || bs[k] >= cur {
        prev
    } else {
        last_below(bs, cur, k + 1, bs[k] as int)
    }
}

/// Where `move_right` goes: the next grapheme cluster start after `cur`, or
/// the end.
pub open spec fn spec_move_right(cs: Seq<char>, cur: int) -> int {
    if cs.len() == 0 {
        0
    } else if cur >= byte_len(cs) {
        byte_len(cs) as int
    } else {
        first_above(grapheme_byte_starts(cs), cur, 0, byte_len(cs) as int)
    }
}

/// Where `move_left` goes: the last grapheme cluster start before `cur`, or 0.
pub open spec fn spec_move_left(cs: Seq<char>, cur: int) -> int {
    if cs.len() == 0 || cur == 0 {
        0
    } else {
        last_below(grapheme_byte_starts(cs), cur, 0, 0)
    }
}

/// Every value of `bs` is a character start of `cs`.
pub open spec fn all_char_starts(cs: Seq<char>, bs: Seq<usize>) -> bool {
    forall|k: int| 0 <= k < bs.len() ==> is_char_start(cs, #[trigger] bs[k] as int)
}

proof fn lemma_grapheme_bytes(cs: Seq<char>)
    requires
        byte_len(cs) <= usize::MAX,
    ensures
        all_char_starts(cs, grapheme_byte_starts(cs)),
        forall|k: int| 0 <= k < grapheme_byte_starts(cs).len() ==> #[trigger] grapheme_byte_starts(cs)[k] < byte_len(cs),
{
    lemma_cluster_starts(cs, 0);
    let g = grapheme_starts(cs);
    assert forall|k: int| 0 <= k < grapheme_byte_starts(cs).len()
        implies is_char_start(cs, #[trigger] grapheme_byte_starts(cs)[k] as int)
            && grapheme_byte_starts(cs)[k] < byte_len(cs) by {
        lemma_byte_pos_mono(cs, g[k], cs.len() as int);
        assert(byte_pos(cs, g[k]) == grapheme_byte_starts(cs)[k]);
    }
}

proof fn lemma_first_above(bs: Seq<usize>, cur: int, k: int, dflt: int)
    ensures
        first_above(bs, cur, k, dflt) == dflt || exists|j: int| 0 <= j < bs.len() && bs[j] as int == first_above(bs, cur, k, dflt) && bs[j] > cur,
    decreases bs.len() - k,
{
    if 0 <= k < bs.len() && bs[k] <= cur {
        lemma_first_above(bs, cur, k + 1, dflt);
    }
}

proof fn lemma_last_below(bs: Seq<usize>, cur: int, k: int, prev: int)
    ensures
        last_below(bs, cur, k, prev) == prev || exists|j: int| 0 <= j < bs.len() && bs[j] as int == last_below(bs, cur, k, prev) && bs[j] < cur,
    decreases bs.len() - k,
{
    if 0 <= k < bs.len() && bs[k] < cur {
        lemma_last_below(bs, cur, k + 1, bs[k] as int);
    }
}

/// Move the cursor one grapheme cluster to the right (logical order),
/// clamped to the end of `text`.
pub fn move_right(text: &str, current: usize) -> (r: usize)
    ensures
        r == spec_move_right(text@, current as int),
        r <= byte_len(text@),
        current < byte_len(text@) ==> current < r,
        r == byte_len(text@) || grapheme_byte_starts(text@).contains(r),
{
    let len = str_len(text);
    if len == 0 {
        proof {
            lemma_byte_pos_mono(text@, 0, text@.len() as int);
        }
        return 0;
    }
    proof {
        if text@.len() == 0 {
            assert(byte_len(text@) == 0);
        }
    }
    if current >= len {
        return len;
    }
    let bs = grapheme_boundaries(text);
    let mut k: usize = 0;
    while k < bs.len()
        invariant
            k <= bs@.len(),
            bs@ == grapheme_byte_starts(text@),
            first_above(bs@, current as int, k as int, len as int) == first_above(bs@, current as int, 0, len as int),
            len == byte_len(text@),
            current < len,
            text@.len() != 0,
        decreases bs@.len() - k,
    {
        if bs[k] > current {
            proof {
                lemma_grapheme_bytes(text@);
                assert(bs@[k as int] == bs[k as int]);
            }
            return bs[k];
        }
        k += 1;
    }
    len
}

/// Move the cursor one grapheme cluster to the left (logical order),
/// clamped to 0.
pub fn move_left(text: &str, current: usize) -> (r: usize)
    ensures
        r == spec_move_left(text@, current as int),
        r <= current,
        current > 0 ==> r < current,
        r == 0 || grapheme_byte_starts(text@).contains(r),
{
    let len = str_len(text);
    if len == 0 || current == 0 {
        proof {
            lemma_byte_pos_mono(text@, 0, text@.len() as int);
        }
        return 0;
    }
    proof {
        if text@.len() == 0 {
            assert(byte_len(text@) == 0);
        }
    }
    let bs = grapheme_boundaries(text);
    let mut prev: usize = 0;
    let mut k: usize = 0;
    while k < bs.len()
        invariant
            k <= bs@.len(),
            bs@ == grapheme_byte_starts(text@),
            last_below(bs@, current as int, k as int, prev as int) == last_below(bs@, current as int, 0, 0),
            text@.len() != 0,
            current != 0,
            prev < current,
        ensures
            k >= bs@.len() || bs@[k as int] >= current,
            last_below(bs@, current as int, k as int, prev as int) == last_below(bs@, current as int, 0, 0),
        decreases bs@.len() - k,
    {
        if bs[k] >= current {
            break;
        }
        prev = bs[k];
        k += 1;
    }
    proof {
        assert(last_below(bs@, current as int, k as int, prev as int) == prev);
        lemma_last_below(bs@, current as int, 0, 0);
    }
    prev
}

/// On cluster boundaries the logical moves undo each other: moving right
/// then left from a boundary before the end comes back to it, and moving
/// left (to the previous boundary) then right from a boundary after the
/// start comes back to it.
pub proof fn lemma_move_right_left_inverse(cs: Seq<char>, b: int)
    requires
        cs.len() > 0,
        byte_len(cs) <= usize::MAX,
        0 <= b <= byte_len(cs),
        b == byte_len(cs) || grapheme_byte_starts(cs).contains(b as usize),
    ensures
        b < byte_len(cs) ==> spec_move_left(cs, spec_move_right(cs, b)) == b,
        b > 0 ==> spec_move_right(cs, spec_move_left(cs, b)) == b,
        b > 0 ==> spec_move_left(cs, b) < b,
        b > 0 ==> grapheme_byte_starts(cs).contains(spec_move_left(cs, b) as usize),
{
    let gb = grapheme_byte_starts(cs);
    let bb = boundary_bytes(cs);
    let m = gb.len() as int;
    let len = byte_len(cs) as int;
    lemma_boundary_bytes(cs);
    let i: int = if b == len {
        m
    } else {
        choose|i: int| 0 <= i < gb.len() && gb[i] == b as usize
    };
    assert(0 <= i <= m && bb[i] as int == b) by {
        if b != len {
            assert(gb.contains(b as usize));
            assert(gb[i] == bb[i]);
        }
    }
    assert forall|a: int, c: int| 0 <= a < c < gb.len() implies gb[a] < gb[c] by {
        assert(gb[a] == bb[a] && gb[c] == bb[c]);
    }
    if b < len {
        assert(i < m);
        assert(gb[i] == bb[i]);
        lemma_first_above_next(gb, i, 0, len);
        let r = spec_move_right(cs, b);
        assert(r == bb[i + 1] as int) by {
            if i + 1 < m {
                assert(gb[i + 1] == bb[i + 1]);
            }
        }
        assert(r > 0);
        assert forall|a: int| 0 <= a < i + 1 implies gb[a] < r by {
            assert(gb[a] == bb[a]);
        }
        if i + 1 < m {
            assert(gb[i + 1] == bb[i + 1]);
        }
        lemma_last_below_prev(gb, r, i + 1, 0, 0);
    }
    if b > 0 {
        assert(i > 0) by {
            if i == 0 {
                assert(bb[0] == 0);
            }
        }
        assert forall|a: int| 0 <= a < i implies gb[a] < b by {
            assert(gb[a] == bb[a]);
        }
        if i < m {
            assert(gb[i] == bb[i]);
        }
        lemma_last_below_prev(gb, b, i, 0, 0);
        let l = spec_move_left(cs, b);
        assert(gb[i - 1] == bb[i - 1]);
        assert(l == gb[i - 1] as int);
        assert(gb.contains(gb[i - 1]));
        lemma_first_above_next(gb, i - 1, 0, len);
        if i < m {
            assert(gb[i] == bb[i]);
        }
    }
}

/// What `delete_backward` leaves: the text without the characters between
/// the previous cluster start and `cur`, and that start.
pub open spec fn spec_delete_backward(cs: Seq<char>, cur: int) -> (Seq<char>, int) {
    if cs.len() == 0 || cur == 0 {
        (cs, cur)
    } else {
        let st = spec_move_left(cs, cur);
        (cs.take(char_index(cs, st)) + cs.skip(char_index(cs, cur)), st)
    }
}

/// Delete the grapheme cluster before `current` (backspace); returns the
/// new text and cursor. `current` must be a character boundary of `text`.
pub fn delete_backward(text: &str, current: usize) -> (r: (String, usize))
    requires
        is_char_start(text@, current as int),
    ensures
        (r.0@, r.1 as int) == spec_delete_backward(text@, current as int),
{
    let cs = chars_of(text);
    let len = str_len(text);
    let n = cs.len();
    if n == 0 || current == 0 {
        return (string_from_two_ranges(&cs, 0, n, n, n), current);
    }
    let start = move_left(text, current);
    let offs = byte_offsets(&cs);
    proof {
        lemma_grapheme_bytes(cs@);
        let bs = grapheme_byte_starts(cs@);
        lemma_last_below(bs, current as int, 0, 0);
        assert(byte_pos(cs@, 0) == 0);
        if start != 0 {
            let j = choose|j: int| 0 <= j < bs.len() && bs[j] as int == start as int && bs[j] < current;
            assert(is_char_start(cs@, bs[j] as int));
        }
        assert(is_char_start(cs@, start as int));
    }
    let ks = find_char_index(&cs, &offs, start);
    let kc = find_char_index(&cs, &offs, current);
    match (ks, kc) {
        (Some(a), Some(b)) => {
            proof {
                let bs = grapheme_byte_starts(cs@);
                if start != 0 {
                    let j = choose|j: int| 0 <= j < bs.len() && bs[j] as int == start as int && bs[j] < current;
                }
                if a > b {
                    lemma_byte_pos_mono(cs@, b as int, a as int);
                }
            }
            let s = string_from_two_ranges(&cs, 0, a, b, n);
            proof {
                assert(cs@.subrange(0, a as int) == cs@.take(a as int));
                assert(cs@.subrange(b as int, n as int) == cs@.skip(b as int));
            }
            (s, start)
        },
        _ => {
            proof {
                assert(false);
            }
            (string_from_two_ranges(&cs, 0, n, n, n), current)
        },
    }
}


/// What `delete_forward` leaves: the text without the characters from
/// `cur` to the next cluster start; the cursor stays.
pub open spec fn spec_delete_forward(cs: Seq<char>, cur: int) -> (Seq<char>, int) {
    if cs.len() == 0 || cur >= byte_len(cs) {
        (cs, cur)
    } else {
        let nx = spec_move_right(cs, cur);
        if nx == cur {
            (cs, cur)
        } else {
            (cs.take(char_index(cs, cur)) + cs.skip(char_index(cs, nx)), cur)
        }
    }
}

/// Delete the grapheme cluster after `current` (Delete key); returns the
/// new text and the unchanged cursor. `current` must be a character
/// boundary of `text` or at or past its end.
pub fn delete_forward(text: &str, current: usize) -> (r: (String, usize))
    requires
        current >= byte_len(text@) || is_char_start(text@, current as int),
    ensures
        (r.0@, r.1 as int) == spec_delete_forward(text@, current as int),
{
    let cs = chars_of(text);
    let len = str_len(text);
    let n = cs.len();
    if n == 0 || current >= len {
        proof {
            assert(cs@.subrange(0, n as int) + cs@.subrange(n as int, n as int) == cs@);
        }
        return (string_from_two_ranges(&cs, 0, n, n, n), current);
    }
    let next = move_right(text, current);
    if next == current {
        proof {
            assert(cs@.subrange(0, n as int) + cs@.subrange(n as int, n as int) == cs@);
        }
        return (string_from_two_ranges(&cs, 0, n, n, n), current);
    }
    let offs = byte_offsets(&cs);
    proof {
        lemma_grapheme_bytes(cs@);
        let bs = grapheme_byte_starts(cs@);
        lemma_first_above(bs, current as int, 0, len as int);
        if next != len {
            let j = choose|j: int| 0 <= j < bs.len() && bs[j] as int == next as int && bs[j] > current;
            assert(is_char_start(cs@, bs[j] as int));
        } else {
            assert(byte_pos(cs@, n as int) == len);
        }
        assert(is_char_start(cs@, next as int));
    }
    let kc = find_char_index(&cs, &offs, current);
    let kn = find_char_index(&cs, &offs, next);
    match (kc, kn) {
        (Some(a), Some(b)) => {
            proof {
                let bs = grapheme_byte_starts(cs@);
                if next != len {
                    let j = choose|j: int| 0 <= j < bs.len() && bs[j] as int == next as int && bs[j] > current;
                }
                if a > b {
                    lemma_byte_pos_mono(cs@, b as int, a as int);
                }
            }
            let s = string_from_two_ranges(&cs, 0, a, b, n);
            proof {
                assert(cs@.subrange(0, a as int) == cs@.take(a as int));
                assert(cs@.subrange(b as int, n as int) == cs@.skip(b as int));
            }
            (s, current)
        },
        _ => {
            proof {
                assert(false);
            }
            (string_from_two_ranges(&cs, 0, n, n, n), current)
        },
    }
}

/// The word starts of `cs` as byte offsets, with the end of the text
/// appended.
pub open spec fn word_bounds(cs: Seq<char>) -> Seq<usize> {
    let w = word_starts(cs).map_values(|i: int| byte_pos(cs, i) as usize);
    if w.len() > 0 && w.last() == byte_len(cs) { w } else { w.push(byte_len(cs) as usize) }
}

/// The first window `[b[j], b[j + 1])` (from `j` on) that holds `cur`.
pub open spec fn find_window(b: Seq<usize>, cur: int, j: int) -> Option<(usize, usize)>
    decreases b.len() - j,
{
    if j < 0 || j + 1 >= b.len() {
        None
    } else if b[j] <= cur < b[j + 1] {
        Some((b[j], b[j + 1]))
    } else {
        find_window(b, cur, j + 1)
    }
}

/// The last value of `b` (from index `k` on, `prev` so far) before the
/// first one above `cur`.
pub open spec fn last_at_most(b: Seq<usize>, cur: int, k: int, prev: int) -> int
    decreases b.len() - k,
{
    if k < 0 || k >= b.len() || b[k] > cur {
        prev
    } else {
        last_at_most(b, cur, k + 1, b[k] as int)
    }
}

/// Whether every character of `cs` is white space.
pub open spec fn all_white_space(cs: Seq<char>) -> bool {
    forall|i: int| 0 <= i < cs.len() ==> is_white_space(#[trigger] cs[i])
}

/// The word selection around `cur`: nothing (the empty selection at `cur`)
/// in text that is empty or white space only, or when `cur` is past the
/// end; else the word window that holds `cur`, else the nearest boundaries
/// around it.
pub open spec fn spec_select_word(cs: Seq<char>, cur: int) -> (int, int) {
    if cs.len() == 0 || cur > byte_len(cs) || all_white_space(cs) {
        (cur, cur)
    } else {
        let b = word_bounds(cs);
        match find_window(b, cur, 0) {
            Some(w) => (w.0 as int, w.1 as int),
            None => {
                let st = last_at_most(b, cur, 0, 0);
                let e = first_above(b, cur, 0, byte_len(cs) as int);
                if st <= cur <= e { (st, e) } else { (cur, cur) }
            },
        }
    }
}

proof fn lemma_find_window(b: Seq<usize>, cur: int, j: int)
    ensures
        find_window(b, cur, j) matches Some(w) ==> w.0 <= cur < w.1,
    decreases b.len() - j,
{
    if 0 <= j && j + 1 < b.len() && !(b[j] <= cur < b[j + 1]) {
        lemma_find_window(b, cur, j + 1);
    }
}

/// Select the word around `current` (double-click): the byte range of the
/// word that holds it; `(current, current)` when no word is found, as in
/// white-space-only text.
pub fn select_word(text: &str, current: usize) -> (r: (usize, usize))
    ensures
        (r.0 as int, r.1 as int) == spec_select_word(text@, current as int),
        r.0 <= current <= r.1,
{
    let len = str_len(text);
    if len == 0 || current > len {
        return (current, current);
    }
    proof {
        if text@.len() == 0 {
            assert(byte_len(text@) == 0);
        }
    }
    let cs = chars_of(text);
    let mut w: usize = 0;
    while w < cs.len() && ranges_contain(WHITE_SPACE.as_slice(), cs[w] as u32)
        invariant
            w <= cs@.len(),
            cs@ == text@,
            forall|i: int| 0 <= i < w ==> is_white_space(#[trigger] cs@[i]),
        decreases cs@.len() - w,
    {
        w += 1;
    }
    if w == cs.len() {
        return (current, current);
    }
    proof {
        assert(!is_white_space(cs@[w as int]));
        assert(!all_white_space(text@));
    }
    let mut bounds = word_boundaries(text, None);
    if bounds.len() == 0 || bounds[bounds.len() - 1] != len {
        bounds.push(len);
    }
    let ghost b = bounds@;
    proof {
        assert(bounds@.len() > 0);
        assert(b == word_bounds(text@));
        lemma_find_window(b, current as int, 0);
    }
    let mut j: usize = 0;
    while j < bounds.len() - 1
        invariant
            b == bounds@,
            j < bounds@.len(),
            find_window(b, current as int, j as int) == find_window(b, current as int, 0),
            b == word_bounds(text@),
            !all_white_space(text@),
            text@.len() != 0,
            current <= len,
            len == byte_len(text@),
        decreases bounds@.len() - j,
    {
        if bounds[j] <= current && current < bounds[j + 1] {
            return (bounds[j], bounds[j + 1]);
        }
        j += 1;
    }
    let mut start: usize = 0;
    let mut k: usize = 0;
    while k < bounds.len()
        invariant
            b == bounds@,
            k <= bounds@.len(),
            last_at_most(b, current as int, k as int, start as int) == last_at_most(b, current as int, 0, 0),
        ensures
            last_at_most(b, current as int, k as int, start as int) == start,
            last_at_most(b, current as int, 0, 0) == start,
        decreases bounds@.len() - k,
    {
        if bounds[k] > current {
            break;
        }
        start = bounds[k];
        k += 1;
    }
    let mut end: usize = len;
    let mut m: usize = 0;
    while m < bounds.len()
        invariant_except_break
            end == len,
        invariant
            b == bounds@,
            m <= bounds@.len(),
            len == byte_len(text@),
            first_above(b, current as int, m as int, len as int) == first_above(b, current as int, 0, len as int),
        ensures
            end == first_above(b, current as int, 0, len as int),
        decreases bounds@.len() - m,
    {
        if bounds[m] > current {
            end = bounds[m];
            break;
        }
        m += 1;
    }
    if start <= current && current <= end {
        (start, end)
    } else {
        (current, current)
    }
}

} // verus!

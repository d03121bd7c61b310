//! UAX #29: word boundaries (WB1-WB999, default rules).
//!
//! WB3-WB3d look at the raw classes of adjacent characters; WB4 makes
//! Extend, Format and ZWJ transparent; WB5-WB999 then look at the nearest
//! non-transparent neighbours.
use vstd::prelude::*;

use crate::data::word_break::{is_extended_pictographic, spec_is_extended_pictographic, spec_wb, wb, Wb};
use crate::text::{byte_len, byte_offsets, byte_pos, chars_of, is_char_start, lemma_byte_pos_mono, lemma_char_start_at, str_len};

verus! {

/// WB4: Extend, Format and ZWJ are transparent.
pub open spec fn is_transparent(w: Wb) -> bool {
    w == Wb::Extend || w == Wb::Format || w == Wb::Zwj
}

pub open spec fn ah_letter(w: Wb) -> bool {
    w == Wb::ALetter || w == Wb::HebrewLetter
}

pub open spec fn mid_letter_q(w: Wb) -> bool {
    w == Wb::MidLetter || w == Wb::MidNumLet || w == Wb::SingleQuote
}

pub open spec fn mid_num_q(w: Wb) -> bool {
    w == Wb::MidNum || w == Wb::MidNumLet || w == Wb::SingleQuote
}

/// WB5-WB999 on the non-transparent neighbours: whether to break between
/// `prev` and `next`; `ri` counts the regional indicators that end the
/// text before `next`.
pub open spec fn wb_rules(prev: Wb, pp: Option<Wb>, next: Wb, nn: Option<Wb>, ri: int) -> bool {
    if ah_letter(prev) && ah_letter(next) {
        false
    } else if ah_letter(prev) && mid_letter_q(next) && (nn matches Some(x) && ah_letter(x)) {
        false
    } else if (pp matches Some(x) && ah_letter(x)) && mid_letter_q(prev) && ah_letter(next) {
        false
    } else if prev == Wb::HebrewLetter && next == Wb::SingleQuote {
        false
    } else if prev == Wb::HebrewLetter && next == Wb::DoubleQuote && nn == Some(Wb::HebrewLetter) {
        false
    } else if pp == Some(Wb::HebrewLetter) && prev == Wb::DoubleQuote && next == Wb::HebrewLetter {
        false
    } else if prev == Wb::Numeric && next == Wb::Numeric {
        false
    } else if ah_letter(prev) && next == Wb::Numeric {
        false
    } else if prev == Wb::Numeric && ah_letter(next) {
        false
    } else if pp == Some(Wb::Numeric) && mid_num_q(prev) && next == Wb::Numeric {
        false
    } else if prev == Wb::Numeric && mid_num_q(next) && nn == Some(Wb::Numeric) {
        false
    } else if prev == Wb::Katakana && next == Wb::Katakana {
        false
    } else if next == Wb::ExtendNumLet && (ah_letter(prev) || prev == Wb::Numeric || prev == Wb::Katakana
        || prev == Wb::ExtendNumLet) {
        false
    } else if prev == Wb::ExtendNumLet && (ah_letter(next) || next == Wb::Numeric || next == Wb::Katakana) {
        false
    } else if prev == Wb::RegionalIndicator && next == Wb::RegionalIndicator && ri % 2 == 1 {
        false
    } else {
        true
    }
}

/// Position of the nearest non-transparent class before `i`, or -1.
pub open spec fn prev_solid(w: Seq<Wb>, i: int) -> int
    decreases i,
{
    if i <= 0 {
        -1
    } else if !is_transparent(w[i - 1]) {
        i - 1
    } else {
        prev_solid(w, i - 1)
    }
}

/// Position of the nearest non-transparent class after `i`, or -1.
pub open spec fn next_solid(w: Seq<Wb>, i: int) -> int
    decreases w.len() - i,
{
    if i + 1 >= w.len() {
        -1
    } else if !is_transparent(w[i + 1]) {
        i + 1
    } else {
        next_solid(w, i + 1)
    }
}

pub open spec fn class_at(w: Seq<Wb>, k: int) -> Option<Wb> {
    if k >= 0 { Some(w[k]) } else { None }
}

/// The word break classes of `cs`.
pub open spec fn wb_classes(cs: Seq<char>) -> Seq<Wb> {
    cs.map_values(|c: char| spec_wb(c))
}

/// The decision before position `i` (whether it starts a word) and the new
/// regional indicator count, given the count `ri` before it.
pub open spec fn wb_step(cs: Seq<char>, i: int, ri: int) -> (bool, int) {
    let w = wb_classes(cs);
    let p = w[i - 1];
    let x = w[i];
    if p == Wb::Cr && x == Wb::Lf {
        (false, ri)
    } else if p == Wb::Newline || p == Wb::Cr || p == Wb::Lf {
        (true, 0)
    } else if x == Wb::Newline || x == Wb::Cr || x == Wb::Lf {
        (true, 0)
    } else if p == Wb::Zwj && spec_is_extended_pictographic(cs[i]) {
        (false, ri)
    } else if p == Wb::WSegSpace && x == Wb::WSegSpace {
        (false, ri)
    } else if is_transparent(x) {
        (false, ri)
    } else {
        let k = prev_solid(w, i);
        let brk = if k >= 0 {
            wb_rules(w[k], class_at(w, prev_solid(w, k)), x, class_at(w, next_solid(w, i)), ri)
        } else {
            true
        };
        let ri2 = if x == Wb::RegionalIndicator {
            if brk { 1 } else { ri + 1 }
        } else {
            0
        };
        (brk, ri2)
    }
}

/// Word starts (character positions) among the first `k` characters, and
/// the regional indicator count after them.
pub open spec fn wb_run(cs: Seq<char>, k: int) -> (Seq<int>, int)
    decreases k,
{
    if k <= 1 {
        let w0 = spec_wb(cs[0]);
        (seq![0int], if !is_transparent(w0) && w0 == Wb::RegionalIndicator { 1 } else { 0 })
    } else {
        let (b, ri) = wb_run(cs, k - 1);
        let (brk, ri2) = wb_step(cs, k - 1, ri);
        (if brk { b.push(k - 1) } else { b }, ri2)
    }
}

/// The word starts of `cs` as character positions; the empty text has the
/// single start 0.
pub open spec fn word_starts(cs: Seq<char>) -> Seq<int> {
    if cs.len() == 0 {
        seq![0int]
    } else {
        wb_run(cs, cs.len() as int).0
    }
}

proof fn lemma_wb_run_grows(cs: Seq<char>, k: int, j: int, x: int)
    requires
        1 <= k <= j <= cs.len(),
        wb_run(cs, k).0.contains(x),
    ensures
        wb_run(cs, j).0.contains(x),
    decreases j - k,
{
    if j > k {
        lemma_wb_run_grows(cs, k, j - 1, x);
        let b = wb_run(cs, j - 1).0;
        let i = choose|i: int| 0 <= i < b.len() && b[i] == x;
        if wb_step(cs, j - 1, wb_run(cs, j - 1).1).0 {
            assert(b.push(j - 1)[i] == x);
        }
    }
}

/// Whether position `k` of `cs` is next to a newline (CR, LF or Newline)
/// and not between CR and LF.
pub open spec fn at_newline(cs: Seq<char>, k: int) -> bool {
    let p = spec_wb(cs[k - 1]);
    let x = spec_wb(cs[k]);
    &&& !(p == Wb::Cr && x == Wb::Lf)
    &&& (p == Wb::Cr || p == Wb::Lf || p == Wb::Newline || x == Wb::Cr || x == Wb::Lf || x == Wb::Newline)
}

/// WB3a, WB3b: a word starts at every character position next to a
/// newline (CR, LF or Newline), except between CR and LF.
pub proof fn lemma_word_starts_at_newline(cs: Seq<char>, k: int)
    requires
        0 < k < cs.len(),
        at_newline(cs, k),
    ensures
        word_starts(cs).contains(k),
{
    let w = wb_classes(cs);
    assert(w[k - 1] == spec_wb(cs[k - 1]) && w[k] == spec_wb(cs[k]));
    let prev = wb_run(cs, k);
    assert(wb_step(cs, k, prev.1).0);
    let b = wb_run(cs, k + 1).0;
    assert(b == prev.0.push(k));
    assert(b[b.len() - 1] == k);
    lemma_wb_run_grows(cs, k + 1, cs.len() as int, k);
}

fn is_transparent_exec(w: Wb) -> (r: bool)
    ensures
        r == is_transparent(w),
{
    w == Wb::Extend || w == Wb::Format || w == Wb::Zwj
}

fn resolve_prev(wbs: &Vec<Wb>, i: usize) -> (k: Option<usize>)
    requires
        i <= wbs@.len(),
    ensures
        match k {
            Some(j) => j == prev_solid(wbs@, i as int) && j < i,
            None => prev_solid(wbs@, i as int) == -1,
        },
{
    let mut j = i;
    while j > 0
        invariant
            j <= i <= wbs@.len(),
            prev_solid(wbs@, j as int) == prev_solid(wbs@, i as int),
        decreases j,
    {
        if !is_transparent_exec(wbs[j - 1]) {
            return Some(j - 1);
        }
        j -= 1;
    }
    None
}

fn resolve_next(wbs: &Vec<Wb>, i: usize) -> (k: Option<usize>)
    requires
        i < wbs@.len(),
    ensures
        match k {
            Some(j) => j == next_solid(wbs@, i as int) && j < wbs@.len(),
            None => next_solid(wbs@, i as int) == -1,
        },
{
    let mut j = i;
    while j < wbs.len() - 1
        invariant
            i <= j < wbs@.len(),
            next_solid(wbs@, j as int) == next_solid(wbs@, i as int),
        decreases wbs@.len() - j,
    {
        if !is_transparent_exec(wbs[j + 1]) {
            return Some(j + 1);
        }
        j += 1;
    }
    None
}

fn class_of(wbs: &Vec<Wb>, k: Option<usize>) -> (r: Option<Wb>)
    requires
        k matches Some(j) ==> j < wbs@.len(),
    ensures
        r == (match k { Some(j) => Some(wbs@[j as int]), None => None }),
{
    match k {
        Some(j) => Some(wbs[j]),
        None => None,
    }
}

/// WB5-WB999 (see `wb_rules`).
fn apply_wb_rules(prev: Wb, pp: Option<Wb>, next: Wb, nn: Option<Wb>, ri: u32) -> (r: bool)
    ensures
        r == wb_rules(prev, pp, next, nn, ri as int),
{
    let ahl_prev = prev == Wb::ALetter || prev == Wb::HebrewLetter;
    let ahl_next = next == Wb::ALetter || next == Wb::HebrewLetter;
    let (ahl_pp, num_pp, heb_pp) = match pp {
        Some(x) => (x == Wb::ALetter || x == Wb::HebrewLetter, x == Wb::Numeric, x == Wb::HebrewLetter),
        None => (false, false, false),
    };
    let (ahl_nn, num_nn, heb_nn) = match nn {
        Some(x) => (x == Wb::ALetter || x == Wb::HebrewLetter, x == Wb::Numeric, x == Wb::HebrewLetter),
        None => (false, false, false),
    };
    let midl_next = next == Wb::MidLetter || next == Wb::MidNumLet || next == Wb::SingleQuote;
    let midl_prev = prev == Wb::MidLetter || prev == Wb::MidNumLet || prev == Wb::SingleQuote;
    let midn_next = next == Wb::MidNum || next == Wb::MidNumLet || next == Wb::SingleQuote;
    let midn_prev = prev == Wb::MidNum || prev == Wb::MidNumLet || prev == Wb::SingleQuote;
    if ahl_prev && ahl_next {
        false
    } else if ahl_prev && midl_next && ahl_nn {
        false
    } else if ahl_pp && midl_prev && ahl_next {
        false
    } else if prev == Wb::HebrewLetter && next == Wb::SingleQuote {
        false
    } else if prev == Wb::HebrewLetter && next == Wb::DoubleQuote && heb_nn {
        false
    } else if heb_pp && prev == Wb::DoubleQuote && next == Wb::HebrewLetter {
        false
    } else if prev == Wb::Numeric && next == Wb::Numeric {
        false
    } else if ahl_prev && next == Wb::Numeric {
        false
    } else if prev == Wb::Numeric && ahl_next {
        false
    } else if num_pp && midn_prev && next == Wb::Numeric {
        false
    } else if prev == Wb::Numeric && midn_next && num_nn {
        false
    } else if prev == Wb::Katakana && next == Wb::Katakana {
        false
    } else if next == Wb::ExtendNumLet && (ahl_prev || prev == Wb::Numeric || prev == Wb::Katakana
        || prev == Wb::ExtendNumLet) {
        false
    } else if prev == Wb::ExtendNumLet && (ahl_next || next == Wb::Numeric || next == Wb::Katakana) {
        false
    } else if prev == Wb::RegionalIndicator && next == Wb::RegionalIndicator && ri % 2 == 1 {
        false
    } else {
        true
    }
}

fn classes_of(cs: &Vec<char>) -> (w: Vec<Wb>)
    ensures
        w@ == wb_classes(cs@),
{
    let mut w: Vec<Wb> = Vec::new();
    let mut k: usize = 0;
    while k < cs.len()
        invariant
            k <= cs@.len(),
            w@.len() == k,
            forall|j: int| 0 <= j < k ==> #[trigger] w@[j] == spec_wb(cs@[j]),
        decreases cs@.len() - k,
    {
        w.push(wb(cs[k]));
        k += 1;
    }
    proof {
        assert(w@ == wb_classes(cs@));
    }
    w
}

/// The word starts from `wb_run` are strictly increasing and below `k`.
proof fn lemma_wb_run(cs: Seq<char>, k: int)
    requires
        1 <= k <= cs.len(),
    ensures
        wb_run(cs, k).0.len() > 0,
        wb_run(cs, k).0[0] == 0,
        forall|a: int| 0 <= a < wb_run(cs, k).0.len() ==> 0 <= #[trigger] wb_run(cs, k).0[a] < k,
        forall|a: int, b: int| 0 <= a < b < wb_run(cs, k).0.len() ==> wb_run(cs, k).0[a] < wb_run(cs, k).0[b],
        0 <= wb_run(cs, k).1 <= 2,
    decreases k,
{
    if k > 1 {
        lemma_wb_run(cs, k - 1);
    }
}

/// Word starts lie in `[0, len]` (below `len` for non-empty text).
pub proof fn lemma_word_starts(cs: Seq<char>)
    ensures
        forall|k: int| 0 <= k < word_starts(cs).len() ==> 0 <= #[trigger] word_starts(cs)[k] <= cs.len(),
        word_starts(cs).len() > 0,
{
    if cs.len() > 0 {
        lemma_wb_run(cs, cs.len() as int);
    }
}

/// Byte offsets of the word starts of `s`; the first is 0. The locale is
/// not used (no tailoring).
pub fn word_boundaries(s: &str, locale: Option<&str>) -> (v: Vec<usize>)
    ensures
        v@ == word_starts(s@).map_values(|i: int| byte_pos(s@, i) as usize),
        v@.len() > 0 && v@[0] == 0,
        forall|a: int, b: int| 0 <= a < b < v@.len() ==> v@[a] < v@[b],
        s@.len() > 0 ==> forall|a: int| 0 <= a < v@.len() ==> #[trigger] v@[a] < byte_len(s@),
        forall|a: int| 0 <= a < v@.len() ==> is_char_start(s@, #[trigger] v@[a] as int),
        forall|k: int| 0 < k < s@.len() && #[trigger] at_newline(s@, k) ==> v@.contains(byte_pos(s@, k) as usize),
{
    let cs = chars_of(s);
    let n = cs.len();
    let ghost g = cs@;
    if n == 0 {
        let mut out: Vec<usize> = Vec::new();
        out.push(0);
        proof {
            assert(out@ == word_starts(g).map_values(|i: int| byte_pos(g, i) as usize));
        }
        return out;
    }
    let _total = str_len(s);
    let wbs = classes_of(&cs);
    let offsets = byte_offsets(&cs);
    let mut out: Vec<usize> = Vec::new();
    out.push(0);
    let mut ri: u32 = if !is_transparent_exec(wbs[0]) && wbs[0] == Wb::RegionalIndicator { 1 } else { 0 };
    proof {
        assert(out@ == wb_run(g, 1).0.map_values(|i: int| byte_pos(g, i) as usize));
    }
    let mut i: usize = 1;
    while i < n
        invariant
            n == g.len(),
            g == cs@,
            wbs@ == wb_classes(g),
            offsets@.len() == n + 1,
            forall|k: int| 0 <= k <= n ==> #[trigger] offsets@[k] == byte_pos(g, k),
            1 <= i <= n,
            out@ == wb_run(g, i as int).0.map_values(|i: int| byte_pos(g, i) as usize),
            ri == wb_run(g, i as int).1,
            ri <= 2,
        decreases n - i,
    {
        proof {
            lemma_wb_run(g, i as int);
        }
        let p = wbs[i - 1];
        let x = wbs[i];
        let ghost before = out@;
        let (brk, ri2): (bool, u32) = if p == Wb::Cr && x == Wb::Lf {
            (false, ri)
        } else if p == Wb::Newline || p == Wb::Cr || p == Wb::Lf {
            (true, 0)
        } else if x == Wb::Newline || x == Wb::Cr || x == Wb::Lf {
            (true, 0)
        } else if p == Wb::Zwj && is_extended_pictographic(cs[i]) {
            (false, ri)
        } else if p == Wb::WSegSpace && x == Wb::WSegSpace {
            (false, ri)
        } else if is_transparent_exec(x) {
            (false, ri)
        } else {
            let k = resolve_prev(&wbs, i);
            let brk = match k {
                Some(kk) => {
                    let kp = resolve_prev(&wbs, kk);
                    let nn = resolve_next(&wbs, i);
                    apply_wb_rules(wbs[kk], class_of(&wbs, kp), x, class_of(&wbs, nn), ri)
                },
                None => true,
            };
            let ri2: u32 = if x == Wb::RegionalIndicator {
                if brk { 1 } else { ri + 1 }
            } else {
                0
            };
            (brk, ri2)
        };
        proof {
            assert(wb_step(g, i as int, ri as int) == (brk, ri2 as int));
        }
        if brk {
            out.push(offsets[i]);
        }
        ri = ri2;
        i += 1;
        proof {
            let prev_b = wb_run(g, i - 1).0;
            if brk {
                assert(out@ == prev_b.push(i - 1).map_values(|i: int| byte_pos(g, i) as usize));
            }
            lemma_wb_run(g, i as int);
        }
    }
    proof {
        lemma_wb_run(g, n as int);
        let ws = wb_run(g, n as int).0;
        assert forall|a: int, b: int| 0 <= a < b < out@.len() implies out@[a] < out@[b] by {
            lemma_byte_pos_mono(g, ws[a], ws[b]);
            lemma_byte_pos_mono(g, ws[b], n as int);
            assert(out@[a] == byte_pos(g, ws[a]) as usize);
            assert(out@[b] == byte_pos(g, ws[b]) as usize);
        }
        assert forall|a: int| 0 <= a < out@.len() implies #[trigger] out@[a] < byte_len(g) by {
            lemma_byte_pos_mono(g, ws[a], n as int);
            assert(out@[a] == byte_pos(g, ws[a]) as usize);
        }
        assert forall|a: int| 0 <= a < out@.len() implies is_char_start(g, #[trigger] out@[a] as int) by {
            lemma_char_start_at(g, ws[a]);
            assert(out@[a] == byte_pos(g, ws[a]) as usize);
        }
    }
    proof {
        assert forall|k: int| 0 < k < g.len() && #[trigger] at_newline(g, k) implies out@.contains(byte_pos(g, k) as usize) by {
            lemma_word_starts_at_newline(g, k);
            let ws = word_starts(g);
            let t = choose|t: int| 0 <= t < ws.len() && ws[t] == k;
            assert(out@[t] == byte_pos(g, k) as usize);
        }
    }
    out
}


proof fn lemma_prev_solid_is(w: Seq<Wb>, j: int, k: int)
    requires
        0 <= j < k <= w.len(),
        !is_transparent(w[j]),
        forall|m: int| j < m < k ==> is_transparent(#[trigger] w[m]),
    ensures
        prev_solid(w, k) == j,
    decreases k - j,
{
    if k - 1 > j {
        assert(is_transparent(w[k - 1]));
        lemma_prev_solid_is(w, j, k - 1);
    }
}

/// A word start after the first position is a position where the rules
/// decide a break.
proof fn lemma_wb_run_member(cs: Seq<char>, m: int, x: int)
    requires
        1 <= m <= cs.len(),
        1 <= x,
        wb_run(cs, m).0.contains(x),
    ensures
        wb_step(cs, x, wb_run(cs, x).1).0,
    decreases m,
{
    lemma_wb_run(cs, m);
    if m > 1 {
        lemma_wb_run(cs, m - 1);
        let b = wb_run(cs, m - 1).0;
        let brk = wb_step(cs, m - 1, wb_run(cs, m - 1).1).0;
        let i = choose|i: int| 0 <= i < wb_run(cs, m).0.len() && wb_run(cs, m).0[i] == x;
        if x == m - 1 {
            if !brk {
                assert(b[i] == x);
            }
        } else {
            if brk {
                assert(i < b.len());
                assert(b[i] == x);
            }
            assert(b.contains(x));
            lemma_wb_run_member(cs, m - 1, x);
        }
    }
}

/// Pairs of word break classes that the rules keep in one word when they
/// are neighbours (apart from Extend, Format and ZWJ): letters (WB5),
/// digits (WB8), letters and digits (WB9, WB10), Katakana (WB13) and the
/// connector ExtendNumLet (WB13a, WB13b).
pub open spec fn wb_joined(p: Wb, x: Wb) -> bool {
    ||| ah_letter(p) && ah_letter(x)
    ||| p == Wb::Numeric && x == Wb::Numeric
    ||| ah_letter(p) && x == Wb::Numeric
    ||| p == Wb::Numeric && ah_letter(x)
    ||| p == Wb::Katakana && x == Wb::Katakana
    ||| x == Wb::ExtendNumLet && (ah_letter(p) || p == Wb::Numeric || p == Wb::Katakana || p == Wb::ExtendNumLet)
    ||| p == Wb::ExtendNumLet && (ah_letter(x) || x == Wb::Numeric || x == Wb::Katakana)
}

/// WB5, WB8-WB10, WB13-WB13b: no word starts between two characters of a
/// joined pair of classes, also when only Extend, Format or ZWJ
/// characters stand between them.
pub proof fn lemma_no_word_start_in_joined(cs: Seq<char>, j: int, k: int)
    requires
        0 <= j < k < cs.len(),
        wb_joined(spec_wb(cs[j]), spec_wb(cs[k])),
        forall|m: int| j < m < k ==> is_transparent(spec_wb(#[trigger] cs[m])),
    ensures
        !word_starts(cs).contains(k),
{
    let w = wb_classes(cs);
    assert forall|m: int| j < m < k implies is_transparent(#[trigger] w[m]) by {
        assert(w[m] == spec_wb(cs[m]));
    }
    assert(w[j] == spec_wb(cs[j]) && w[k] == spec_wb(cs[k]));
    lemma_prev_solid_is(w, j, k);
    if word_starts(cs).contains(k) {
        lemma_wb_run_member(cs, cs.len() as int, k);
        let ri = wb_run(cs, k).1;
        if k - 1 > j {
            assert(is_transparent(w[k - 1]));
        }
        assert(!wb_step(cs, k, ri).0);
    }
}

/// WB13: no word starts between two Katakana characters, also when only
/// Extend, Format or ZWJ characters stand between them.
pub proof fn lemma_no_word_start_in_katakana(cs: Seq<char>, j: int, k: int)
    requires
        0 <= j < k < cs.len(),
        spec_wb(cs[j]) == Wb::Katakana,
        spec_wb(cs[k]) == Wb::Katakana,
        forall|m: int| j < m < k ==> is_transparent(spec_wb(#[trigger] cs[m])),
    ensures
        !word_starts(cs).contains(k),
{
    lemma_no_word_start_in_joined(cs, j, k);
}


/// WB6, WB7 (letters around a mid-letter punctuation such as an
/// apostrophe or period) and WB11, WB12 (digits around a mid-number
/// punctuation such as a comma or period): no word starts on either side
/// of the punctuation.
pub proof fn lemma_no_word_start_around_mid(cs: Seq<char>, k: int)
    requires
        1 <= k,
        k + 1 < cs.len(),
        (ah_letter(spec_wb(cs[k - 1])) && mid_letter_q(spec_wb(cs[k])) && ah_letter(spec_wb(cs[k + 1])))
            || (spec_wb(cs[k - 1]) == Wb::Numeric && mid_num_q(spec_wb(cs[k])) && spec_wb(cs[k + 1]) == Wb::Numeric),
    ensures
        !word_starts(cs).contains(k),
        !word_starts(cs).contains(k + 1),
{
    let w = wb_classes(cs);
    assert(w[k - 1] == spec_wb(cs[k - 1]) && w[k] == spec_wb(cs[k]) && w[k + 1] == spec_wb(cs[k + 1]));
    assert(prev_solid(w, k) == k - 1);
    assert(prev_solid(w, k + 1) == k);
    assert(next_solid(w, k) == k + 1);
    if word_starts(cs).contains(k) {
        lemma_wb_run_member(cs, cs.len() as int, k);
        assert(!wb_step(cs, k, wb_run(cs, k).1).0);
    }
    if word_starts(cs).contains(k + 1) {
        lemma_wb_run_member(cs, cs.len() as int, k + 1);
        assert(!wb_step(cs, k + 1, wb_run(cs, k + 1).1).0);
    }
}

} // verus!

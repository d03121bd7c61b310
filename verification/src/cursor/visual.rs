//! Visual-order (bidi-aware) cursor movement.
//!
//! Grapheme clusters take the bidi level of their first character; L2
//! orders the clusters on screen; the stops are the cluster edges in that
//! order, with both edges kept where the cursor enters a deeper embedding
//! and only the near edge where it leaves one.
use vstd::prelude::*;

use crate::bidi::{bidi_info_ok, is_ltr_line, resolve, resolved_levels, spec_paragraph_level, BidiInfo};
use crate::bidi::reorder::{compute_reorder, lemma_reorder_all_zero, lemma_reorder_permutation, spec_reorder};
use crate::data::bidi_class::spec_bidi_class;
use crate::cursor::{first_above, last_below, spec_move_left, spec_move_right};
use crate::segment::grapheme::{cluster_starts, grapheme_byte_starts, grapheme_starts, lemma_cluster_end_bounds, lemma_cluster_starts,
    next_cluster, next_cluster_start};
use crate::text::{byte_len, byte_offsets, byte_pos, chars_of, lemma_byte_pos_mono, str_len};

verus! {

/// A grapheme cluster: its byte range and its bidi level.
#[derive(Clone, Copy, PartialEq, Eq, Structural)]
pub struct ClusterInfo {
    pub byte_start: usize,
    pub byte_end: usize,
    pub level: u8,
}

/// The level of character `k`: its resolved level, or the paragraph level
/// for characters that X9 removed.
pub open spec fn level_for(lv: Seq<u8>, para: u8, k: int) -> u8 {
    if 0 <= k < lv.len() && lv[k] != 255 { lv[k] } else { para }
}

/// The grapheme clusters of `cs` with the levels `lv`.
pub open spec fn spec_clusters(cs: Seq<char>, lv: Seq<u8>, para: u8) -> Seq<ClusterInfo> {
    let g = grapheme_starts(cs);
    Seq::new(g.len(), |j: int| ClusterInfo {
        byte_start: byte_pos(cs, g[j]) as usize,
        byte_end: byte_pos(cs, if j + 1 < g.len() { g[j + 1] } else { cs.len() as int }) as usize,
        level: level_for(lv, para, g[j]),
    })
}

pub open spec fn cluster_levels(cl: Seq<ClusterInfo>) -> Seq<u8> {
    cl.map_values(|c: ClusterInfo| c.level)
}

/// The screen-left edge of a cluster: its end when it runs right to left.
pub open spec fn left_edge(c: ClusterInfo) -> usize {
    if c.level % 2 == 1 { c.byte_end } else { c.byte_start }
}

/// The screen-right edge of a cluster.
pub open spec fn right_edge(c: ClusterInfo) -> usize {
    if c.level % 2 == 1 { c.byte_start } else { c.byte_end }
}

/// The stops after the first `k` clusters in visual order `vis`.
pub open spec fn stops_upto(cl: Seq<ClusterInfo>, vis: Seq<usize>, k: int) -> Seq<usize>
    decreases k,
{
    if k <= 0 {
        seq![left_edge(cl[vis[0] as int])]
    } else {
        let st = stops_upto(cl, vis, k - 1);
        let c = cl[vis[k - 1] as int];
        let re = right_edge(c);
        let st2 = if st.last() != re { st.push(re) } else { st };
        if k < vis.len() {
            let nx = cl[vis[k] as int];
            let nl = left_edge(nx);
            if re != nl && nx.level > c.level { st2.push(nl) } else { st2 }
        } else {
            st2
        }
    }
}

/// The visual stops of clusters `cl` in visual order `vis`.
pub open spec fn spec_stops(cl: Seq<ClusterInfo>, vis: Seq<usize>) -> Seq<usize> {
    if vis.len() == 0 { seq![0usize] } else { stops_upto(cl, vis, vis.len() as int) }
}

/// The visual stops of `cs` at levels `lv`.
pub open spec fn raw_stops(cs: Seq<char>, lv: Seq<u8>, para: u8) -> Seq<usize> {
    let cl = spec_clusters(cs, lv, para);
    spec_stops(cl, spec_reorder(cluster_levels(cl)))
}

/// `s[..k]` without the repeats of a value seen before.
pub open spec fn dedup(s: Seq<usize>, k: int) -> Seq<usize>
    decreases k,
{
    if k <= 0 {
        Seq::empty()
    } else {
        let d = dedup(s, k - 1);
        if d.contains(s[k - 1]) { d } else { d.push(s[k - 1]) }
    }
}

/// Keeping first occurrences leaves no value twice, and keeps every value
/// of the first `k` elements.
pub proof fn lemma_dedup(s: Seq<usize>, k: int)
    requires
        0 <= k <= s.len(),
    ensures
        dedup(s, k).no_duplicates(),
        forall|x: usize| dedup(s, k).contains(x) <==> s.take(k).contains(x),
    decreases k,
{
    if k > 0 {
        lemma_dedup(s, k - 1);
        let d = dedup(s, k - 1);
        assert(s.take(k) == s.take(k - 1).push(s[k - 1]));
        assert forall|x: usize| dedup(s, k).contains(x) <==> s.take(k).contains(x) by {
            let tk = s.take(k);
            let tp = s.take(k - 1);
            let dk = dedup(s, k);
            assert(tk[k - 1] == s[k - 1]);
            if tp.contains(x) {
                let w = choose|w: int| 0 <= w < tp.len() && #[trigger] tp[w] == x;
                assert(tk[w] == x);
            }
            if d.contains(x) && dk != d {
                let w = choose|w: int| 0 <= w < d.len() && #[trigger] d[w] == x;
                assert(dk[w] == x);
            }
            if !d.contains(s[k - 1]) {
                assert(dk[d.len() as int] == s[k - 1]);
            }
            if tk.contains(x) && x != s[k - 1] {
                let w = choose|w: int| 0 <= w < tk.len() && #[trigger] tk[w] == x;
                assert(tp[w] == x);
            }
            if dk.contains(x) && dk != d && x != s[k - 1] {
                let w = choose|w: int| 0 <= w < dk.len() && #[trigger] dk[w] == x;
                assert(d[w] == x);
            }
        }
    } else {
        assert(s.take(0) =~= Seq::<usize>::empty());
    }
}

/// The stops that `visual_cursor_stops` reports.
pub open spec fn spec_visual_cursor_stops(cs: Seq<char>, lv: Seq<u8>, para: u8) -> Seq<usize> {
    if cs.len() == 0 {
        seq![0usize]
    } else {
        let r = raw_stops(cs, lv, para);
        dedup(r, r.len() as int)
    }
}

/// The bidi classes of the characters of `cs`.
pub open spec fn classes_of_text(cs: Seq<char>) -> Seq<crate::data::bidi_class::BidiClass> {
    cs.map_values(|c: char| spec_bidi_class(c as u32))
}

/// The levels that UAX #9 gives the characters of `text`, with the
/// paragraph direction detected (P2/P3).
pub open spec fn text_levels(text: Seq<char>) -> Seq<u8> {
    resolved_levels(classes_of_text(text), Some(text), None)
}

/// The detected paragraph level of `text` (P2/P3).
pub open spec fn text_para(text: Seq<char>) -> u8 {
    spec_paragraph_level(classes_of_text(text))
}

/// Whether `cur` is a grapheme cluster boundary of `cs` (the end included).
pub open spec fn on_boundary(cs: Seq<char>, cur: int) -> bool {
    0 <= cur <= byte_len(cs) && (cur == byte_len(cs) || grapheme_byte_starts(cs).contains(cur as usize))
}

/// The indices `i < k` with `s[i] == cur`.
pub open spec fn match_indices(s: Seq<usize>, cur: int, k: int) -> Seq<int>
    decreases k,
{
    if k <= 0 {
        Seq::empty()
    } else {
        let m = match_indices(s, cur, k - 1);
        if s[k - 1] == cur { m.push(k - 1) } else { m }
    }
}

/// The first index from `k` on whose stop is at least `cur`, else the last.
pub open spec fn first_at_least(s: Seq<usize>, cur: int, k: int) -> int
    decreases s.len() - k,
{
    if k < 0 || k >= s.len() {
        if s.len() == 0 { 0 } else { s.len() - 1 }
    } else if s[k] >= cur {
        k
    } else {
        first_at_least(s, cur, k + 1)
    }
}

/// The level of the last of the first `k` clusters that ends at or before
/// `cur` (and after 0), or 0.
pub open spec fn level_before(cl: Seq<ClusterInfo>, cur: int, k: int) -> u8
    decreases k,
{
    if k <= 0 {
        0
    } else if cl[k - 1].byte_end <= cur && cl[k - 1].byte_end > 0 {
        cl[k - 1].level
    } else {
        level_before(cl, cur, k - 1)
    }
}

/// The level of the cluster that starts at `cur`, or 0.
pub open spec fn level_at(cl: Seq<ClusterInfo>, cur: int, k: int) -> u8
    decreases cl.len() - k,
{
    if k < 0 || k >= cl.len() || cl[k].byte_start > cur {
        0
    } else if cl[k].byte_start == cur {
        cl[k].level
    } else {
        level_at(cl, cur, k + 1)
    }
}

/// The stop index of `cur`: the hint when it names `cur`; the only stop at
/// `cur`; of two or more, the first when the cursor enters a deeper level
/// there and the last when it leaves one; with none, the first stop at or
/// after `cur`.
pub open spec fn stop_index(s: Seq<usize>, cur: int, hint: int, cl: Seq<ClusterInfo>) -> int {
    if 0 <= hint < s.len() && s[hint] == cur {
        hint
    } else {
        let ms = match_indices(s, cur, s.len() as int);
        if ms.len() == 0 {
            first_at_least(s, cur, 0)
        } else if ms.len() == 1 {
            ms[0]
        } else {
            let lb = level_before(cl, cur, cl.len() as int);
            let la = level_at(cl, cur, 0);
            if lb > la { ms.last() } else { ms[0] }
        }
    }
}

/// `move_right_visual_indexed` at levels `lv`: the next stop in visual
/// order and its index.
pub open spec fn spec_move_right_visual(cs: Seq<char>, lv: Seq<u8>, para: u8, cur: int, hint: int) -> (int, int) {
    if cs.len() == 0 {
        (0, 0)
    } else {
        let cl = spec_clusters(cs, lv, para);
        let s = raw_stops(cs, lv, para);
        let idx = stop_index(s, cur, hint, cl);
        if idx + 1 < s.len() { (s[idx + 1] as int, idx + 1) } else { (s.last() as int, s.len() - 1) }
    }
}

/// `move_left_visual_indexed` at levels `lv`: the previous stop in visual
/// order and its index.
pub open spec fn spec_move_left_visual(cs: Seq<char>, lv: Seq<u8>, para: u8, cur: int, hint: int) -> (int, int) {
    if cs.len() == 0 {
        (0, 0)
    } else {
        let cl = spec_clusters(cs, lv, para);
        let s = raw_stops(cs, lv, para);
        let idx = stop_index(s, cur, hint, cl);
        if idx > 0 { (s[idx - 1] as int, idx - 1) } else { (s[0] as int, 0) }
    }
}

proof fn lemma_match_indices(s: Seq<usize>, cur: int, k: int)
    ensures
        forall|a: int| 0 <= a < match_indices(s, cur, k).len() ==> 0 <= #[trigger] match_indices(s, cur, k)[a] < k,
    decreases k,
{
    if k > 0 {
        lemma_match_indices(s, cur, k - 1);
        let m = match_indices(s, cur, k - 1);
        if s[k - 1] == cur {
            assert forall|a: int| 0 <= a < m.len() + 1 implies 0 <= #[trigger] m.push(k - 1)[a] < k by {
                if a < m.len() {
                    assert(m.push(k - 1)[a] == m[a]);
                }
            }
        }
    }
}

proof fn lemma_first_at_least(s: Seq<usize>, cur: int, k: int)
    requires
        s.len() > 0,
    ensures
        0 <= first_at_least(s, cur, k) < s.len(),
    decreases s.len() - k,
{
    if 0 <= k < s.len() && s[k] < cur {
        lemma_first_at_least(s, cur, k + 1);
    }
}

proof fn lemma_stop_index(s: Seq<usize>, cur: int, hint: int, cl: Seq<ClusterInfo>)
    requires
        s.len() > 0,
    ensures
        0 <= stop_index(s, cur, hint, cl) < s.len(),
{
    lemma_match_indices(s, cur, s.len() as int);
    lemma_first_at_least(s, cur, 0);
}

/// The indexed moves undo each other: after a move right that lands on
/// stop `k`, a move left with that stop index goes to stop `k - 1` (unless
/// `k` is the leftmost stop), and a move right from there with its index
/// comes back to the same offset and stop.
pub proof fn lemma_visual_moves_invert(cs: Seq<char>, lv: Seq<u8>, para: u8, cur: int, hint: int)
    requires
        cs.len() > 0,
        spec_move_left_visual(cs, lv, para, spec_move_right_visual(cs, lv, para, cur, hint).0,
            spec_move_right_visual(cs, lv, para, cur, hint).1).1 < spec_move_right_visual(cs, lv, para, cur, hint).1,
    ensures
        ({
            let (p, k) = spec_move_right_visual(cs, lv, para, cur, hint);
            let (q, j) = spec_move_left_visual(cs, lv, para, p, k);
            j == k - 1 && spec_move_right_visual(cs, lv, para, q, j) == (p, k)
        }),
{
    let cl = spec_clusters(cs, lv, para);
    let s = raw_stops(cs, lv, para);
    if s.len() > 0 {
        lemma_stop_index(s, cur, hint, cl);
        let (p, k) = spec_move_right_visual(cs, lv, para, cur, hint);
        assert(0 <= k < s.len() && s[k] as int == p);
        assert(stop_index(s, p, k, cl) == k);
        let (q, j) = spec_move_left_visual(cs, lv, para, p, k);
        assert(j == k - 1 && s[j] as int == q);
        assert(stop_index(s, q, j, cl) == j);
    } else {
        lemma_first_at_least(s, cur, 0);
    }
}

/// The cluster boundaries of `cs` as byte offsets, the end included.
pub open spec fn boundary_bytes(cs: Seq<char>) -> Seq<usize> {
    grapheme_byte_starts(cs).push(byte_len(cs) as usize)
}

pub proof fn lemma_boundary_bytes(cs: Seq<char>)
    requires
        cs.len() > 0,
        byte_len(cs) <= usize::MAX,
    ensures
        boundary_bytes(cs).len() == grapheme_starts(cs).len() + 1,
        forall|a: int, b: int| 0 <= a < b < boundary_bytes(cs).len() ==> boundary_bytes(cs)[a] < boundary_bytes(cs)[b],
        boundary_bytes(cs)[0] == 0,
        boundary_bytes(cs).last() == byte_len(cs),
        forall|j: int| 0 <= j < grapheme_starts(cs).len() ==> #[trigger] boundary_bytes(cs)[j] == byte_pos(cs, grapheme_starts(cs)[j]),
{
    let g = grapheme_starts(cs);
    let bb = boundary_bytes(cs);
    lemma_cluster_starts(cs, 0);
    assert forall|j: int| 0 <= j < g.len() implies #[trigger] bb[j] == byte_pos(cs, g[j])
        && byte_pos(cs, g[j]) < byte_len(cs) by {
        lemma_byte_pos_mono(cs, g[j], cs.len() as int);
    }
    assert forall|a: int, b: int| 0 <= a < b < bb.len() implies bb[a] < bb[b] by {
        if b < g.len() {
            lemma_byte_pos_mono(cs, g[a], g[b]);
        }
    }
}

proof fn lemma_incr_ge_index(s: Seq<usize>, j: int)
    requires
        0 <= j < s.len(),
        forall|a: int, b: int| 0 <= a < b < s.len() ==> s[a] < s[b],
    ensures
        s[j] >= j,
    decreases j,
{
    if j > 0 {
        lemma_incr_ge_index(s, j - 1);
    }
}

proof fn lemma_ltr_stops(cs: Seq<char>, lv: Seq<u8>, k: int)
    requires
        cs.len() > 0,
        byte_len(cs) <= usize::MAX,
        forall|q: int| 0 <= q < lv.len() ==> lv[q] == 0 || lv[q] == 255,
        0 <= k <= grapheme_starts(cs).len(),
    ensures
        stops_upto(spec_clusters(cs, lv, 0), Seq::new(grapheme_starts(cs).len(), |i: int| i as usize), k)
            == boundary_bytes(cs).take(k + 1),
    decreases k,
{
    let g = grapheme_starts(cs);
    let m = g.len() as int;
    let cl = spec_clusters(cs, lv, 0);
    let vis = Seq::new(g.len(), |i: int| i as usize);
    let bb = boundary_bytes(cs);
    lemma_boundary_bytes(cs);
    lemma_cluster_starts(cs, 0);
    lemma_incr_ge_index(bb, m);
    assert forall|j: int| 0 <= j < g.len() implies (#[trigger] cl[j]).level == 0
        && cl[j].byte_start == bb[j] && cl[j].byte_end == bb[j + 1] by {
        if j + 1 < g.len() {
            assert(bb[j + 1] == byte_pos(cs, g[j + 1]));
        }
    }
    if k == 0 {
        assert(stops_upto(cl, vis, 0) =~= bb.take(1));
    } else {
        lemma_ltr_stops(cs, lv, k - 1);
        let st = bb.take(k);
        assert(st.last() == bb[k - 1]);
        assert(vis[k - 1] == (k - 1) as usize);
        assert(cl[k - 1].byte_end == bb[k]);
        assert(cl[k - 1].level == 0);
        assert(right_edge(cl[vis[k - 1] as int]) == bb[k]);
        assert(bb[k - 1] < bb[k]);
        assert(st.last() != bb[k]);
        if k < m {
            assert(vis[k] == k as usize);
            assert(cl[k].level == 0);
        }
        assert(st.push(bb[k]) =~= bb.take(k + 1));
        assert(stops_upto(cl, vis, k) == st.push(bb[k]));
    }
}

pub proof fn lemma_match_single(s: Seq<usize>, i: int, k: int)
    requires
        0 <= i < s.len(),
        0 <= k <= s.len(),
        forall|a: int, b: int| 0 <= a < b < s.len() ==> s[a] < s[b],
    ensures
        match_indices(s, s[i] as int, k) == (if k > i { seq![i] } else { Seq::<int>::empty() }),
    decreases k,
{
    if k > 0 {
        lemma_match_single(s, i, k - 1);
        if k - 1 != i {
            assert(s[k - 1] != s[i]);
        }
    }
}

pub proof fn lemma_first_above_next(bs: Seq<usize>, i: int, k: int, d: int)
    requires
        0 <= i < bs.len(),
        0 <= k <= i + 1,
        forall|a: int, b: int| 0 <= a < b < bs.len() ==> bs[a] < bs[b],
    ensures
        first_above(bs, bs[i] as int, k, d) == (if i + 1 < bs.len() { bs[i + 1] as int } else { d }),
    decreases i + 1 - k,
{
    if k <= i {
        lemma_first_above_next(bs, i, k + 1, d);
    }
}

/// On a left-to-right line (paragraph level 0, every level 0 or removed),
/// moving right in visual order from a cluster boundary lands where moving
/// right in logical order does.
pub proof fn lemma_ltr_visual_right_is_logical(cs: Seq<char>, lv: Seq<u8>, cur: int)
    requires
        cs.len() > 0,
        byte_len(cs) <= usize::MAX,
        forall|k: int| 0 <= k < lv.len() ==> lv[k] == 0 || lv[k] == 255,
        0 <= cur <= byte_len(cs),
        cur == byte_len(cs) || grapheme_byte_starts(cs).contains(cur as usize),
    ensures
        spec_move_right_visual(cs, lv, 0, cur, usize::MAX as int).0 == spec_move_right(cs, cur),
{
    let g = grapheme_starts(cs);
    let m = g.len() as int;
    let cl = spec_clusters(cs, lv, 0);
    let bb = boundary_bytes(cs);
    let gb = grapheme_byte_starts(cs);
    lemma_boundary_bytes(cs);
    lemma_cluster_starts(cs, 0);
    assert(cluster_levels(cl) =~= Seq::new(m as nat, |j: int| 0u8)) by {
        assert forall|j: int| 0 <= j < m implies #[trigger] cl[j].level == 0 by {}
    }
    lemma_reorder_all_zero(cluster_levels(cl));
    assert(spec_reorder(cluster_levels(cl)) =~= Seq::new(m as nat, |i: int| i as usize));
    lemma_ltr_stops(cs, lv, m);
    assert(bb.take(m + 1) =~= bb);
    let s = raw_stops(cs, lv, 0);
    assert(s == bb);
    let i: int = if cur == byte_len(cs) {
        m
    } else {
        choose|i: int| 0 <= i < gb.len() && gb[i] == cur as usize
    };
    assert(0 <= i <= m && bb[i] as int == cur) by {
        if cur != byte_len(cs) {
            assert(gb.contains(cur as usize));
            assert(0 <= i < gb.len() && gb[i] == cur as usize);
            assert(gb[i] == bb[i]);
        }
    }
    lemma_match_single(bb, i, bb.len() as int);
    assert(stop_index(bb, cur, usize::MAX as int, cl) == i);
    if cur < byte_len(cs) {
        assert(i < m);
        assert forall|a: int, b: int| 0 <= a < b < gb.len() implies gb[a] < gb[b] by {
            assert(gb[a] == bb[a] && gb[b] == bb[b]);
        }
        assert(gb[i] == bb[i]);
        lemma_first_above_next(gb, i, 0, byte_len(cs) as int);
        if i + 1 < m {
            assert(gb[i + 1] == bb[i + 1]);
        }
    }
}

pub proof fn lemma_last_below_prev(bs: Seq<usize>, cur: int, i: int, k: int, prev: int)
    requires
        0 <= k <= i <= bs.len(),
        forall|a: int| 0 <= a < i ==> bs[a] < cur,
        i < bs.len() ==> bs[i] >= cur,
    ensures
        last_below(bs, cur, k, prev) == (if k < i { bs[i - 1] as int } else { prev }),
    decreases i - k,
{
    if k < i {
        lemma_last_below_prev(bs, cur, i, k + 1, bs[k] as int);
    }
}

/// On a left-to-right line (paragraph level 0, every level 0 or removed),
/// moving left in visual order from a cluster boundary lands where moving
/// left in logical order does.
pub proof fn lemma_ltr_visual_left_is_logical(cs: Seq<char>, lv: Seq<u8>, cur: int)
    requires
        cs.len() > 0,
        byte_len(cs) <= usize::MAX,
        forall|k: int| 0 <= k < lv.len() ==> lv[k] == 0 || lv[k] == 255,
        0 <= cur <= byte_len(cs),
        cur == byte_len(cs) || grapheme_byte_starts(cs).contains(cur as usize),
    ensures
        spec_move_left_visual(cs, lv, 0, cur, usize::MAX as int).0 == spec_move_left(cs, cur),
{
    let g = grapheme_starts(cs);
    let m = g.len() as int;
    let cl = spec_clusters(cs, lv, 0);
    let bb = boundary_bytes(cs);
    let gb = grapheme_byte_starts(cs);
    lemma_boundary_bytes(cs);
    lemma_cluster_starts(cs, 0);
    assert(cluster_levels(cl) =~= Seq::new(m as nat, |j: int| 0u8)) by {
        assert forall|j: int| 0 <= j < m implies #[trigger] cl[j].level == 0 by {}
    }
    lemma_reorder_all_zero(cluster_levels(cl));
    assert(spec_reorder(cluster_levels(cl)) =~= Seq::new(m as nat, |i: int| i as usize));
    lemma_ltr_stops(cs, lv, m);
    assert(bb.take(m + 1) =~= bb);
    assert(raw_stops(cs, lv, 0) == bb);
    let i: int = if cur == byte_len(cs) {
        m
    } else {
        choose|i: int| 0 <= i < gb.len() && gb[i] == cur as usize
    };
    assert(0 <= i <= m && bb[i] as int == cur) by {
        if cur != byte_len(cs) {
            assert(gb.contains(cur as usize));
            assert(0 <= i < gb.len() && gb[i] == cur as usize);
            assert(gb[i] == bb[i]);
        }
    }
    lemma_match_single(bb, i, bb.len() as int);
    assert(stop_index(bb, cur, usize::MAX as int, cl) == i);
    if cur != 0 {
        assert(i > 0) by {
            if i == 0 {
                assert(bb[0] == 0);
            }
        }
        assert forall|a: int| 0 <= a < i implies gb[a] < cur by {
            assert(gb[a] == bb[a]);
        }
        if i < m {
            assert(gb[i] == bb[i]);
        }
        lemma_last_below_prev(gb, cur, i, 0, 0);
        assert(gb[i - 1] == bb[i - 1]);
    }
}

/// The clusters of `cs` with the levels of `info`.
fn build_clusters(cs: &Vec<char>, offs: &Vec<usize>, info: &BidiInfo) -> (cl: Vec<ClusterInfo>)
    requires
        cs@.len() > 0,
        offs@.len() == cs@.len() + 1,
        forall|k: int| 0 <= k <= cs@.len() ==> #[trigger] offs@[k] == byte_pos(cs@, k),
    ensures
        cl@ == spec_clusters(cs@, info.levels@, info.paragraph_level),
        cl@.len() > 0,
{
    let n = cs.len();
    let ghost g = cs@;
    let ghost full = grapheme_starts(g);
    let ghost lv = info.levels@;
    let ghost para = info.paragraph_level;
    let ghost target = spec_clusters(g, lv, para);
    proof {
        lemma_cluster_starts(g, 0);
    }
    let mut cl: Vec<ClusterInfo> = Vec::new();
    let mut st: usize = 0;
    while st < n
        invariant
            n == g.len(),
            g == cs@,
            n > 0,
            lv == info.levels@,
            para == info.paragraph_level,
            full == grapheme_starts(g),
            target == spec_clusters(g, lv, para),
            offs@.len() == n + 1,
            forall|k: int| 0 <= k <= n ==> #[trigger] offs@[k] == byte_pos(g, k),
            st <= n,
            cl@.len() <= full.len(),
            full == full.take(cl@.len() as int) + cluster_starts(g, st as int),
            forall|j: int| 0 <= j < cl@.len() ==> #[trigger] cl@[j] == target[j],
            st == n ==> cl@.len() == full.len(),
        decreases n - st,
    {
        let e = next_cluster_start(cs, st);
        proof {
            lemma_cluster_end_bounds(g, st as int, st + 1);
            lemma_cluster_starts(g, e as int);
            let k = cl@.len() as int;
            assert(cluster_starts(g, st as int) == seq![st as int].add(cluster_starts(g, e as int)));
            assert(full[k] == st);
            assert(full.take(k + 1) == full.take(k).push(st as int));
            assert(full == full.take(k + 1) + cluster_starts(g, e as int));
            if e < n {
                assert(full[k + 1] == e);
            } else {
                assert(cluster_starts(g, e as int) == Seq::<int>::empty());
                assert(full.len() == k + 1);
            }
        }
        let lev = if st < info.levels.len() && info.levels[st] != 255 { info.levels[st] } else { info.paragraph_level };
        cl.push(ClusterInfo { byte_start: offs[st], byte_end: offs[e], level: lev });
        st = e;
    }
    proof {
        assert(cl@ == target);
    }
    cl
}

fn levels_of(cl: &Vec<ClusterInfo>) -> (lv: Vec<u8>)
    ensures
        lv@ == cluster_levels(cl@),
{
    let mut lv: Vec<u8> = Vec::new();
    let mut k: usize = 0;
    while k < cl.len()
        invariant
            k <= cl@.len(),
            lv@.len() == k,
            forall|j: int| 0 <= j < k ==> #[trigger] lv@[j] == cl@[j].level,
        decreases cl@.len() - k,
    {
        lv.push(cl[k].level);
        k += 1;
    }
    proof {
        assert(lv@ == cluster_levels(cl@));
    }
    lv
}

fn left_of(c: ClusterInfo) -> (r: usize)
    ensures
        r == left_edge(c),
{
    if c.level % 2 == 1 { c.byte_end } else { c.byte_start }
}

fn right_of(c: ClusterInfo) -> (r: usize)
    ensures
        r == right_edge(c),
{
    if c.level % 2 == 1 { c.byte_start } else { c.byte_end }
}

/// The stops of clusters `cl` in visual order `vis` (see `spec_stops`).
fn build_visual_stops(cl: &Vec<ClusterInfo>, vis: &Vec<usize>) -> (s: Vec<usize>)
    requires
        forall|k: int| 0 <= k < vis@.len() ==> (#[trigger] vis@[k]) < cl@.len(),
    ensures
        s@ == spec_stops(cl@, vis@),
        s@.len() > 0,
{
    let mut stops: Vec<usize> = Vec::new();
    if vis.len() == 0 {
        stops.push(0);
        return stops;
    }
    stops.push(left_of(cl[vis[0]]));
    let mut k: usize = 0;
    while k < vis.len()
        invariant
            0 < vis@.len(),
            k <= vis@.len(),
            forall|j: int| 0 <= j < vis@.len() ==> (#[trigger] vis@[j]) < cl@.len(),
            stops@ == stops_upto(cl@, vis@, k as int),
            stops@.len() > 0,
        decreases vis@.len() - k,
    {
        let c = cl[vis[k]];
        let re = right_of(c);
        if stops[stops.len() - 1] != re {
            stops.push(re);
        }
        if k + 1 < vis.len() {
            let nx = cl[vis[k + 1]];
            let nl = left_of(nx);
            if re != nl && nx.level > c.level {
                stops.push(nl);
            }
        }
        k += 1;
    }
    stops
}

fn dedup_stops(s: &Vec<usize>) -> (r: Vec<usize>)
    ensures
        r@ == dedup(s@, s@.len() as int),
{
    let mut r: Vec<usize> = Vec::new();
    let mut k: usize = 0;
    while k < s.len()
        invariant
            k <= s@.len(),
            r@ == dedup(s@, k as int),
        decreases s@.len() - k,
    {
        let x = s[k];
        let mut seen = false;
        let mut m: usize = 0;
        while m < r.len()
            invariant
                m <= r@.len(),
                seen == (exists|j: int| 0 <= j < m && r@[j] == x),
            decreases r@.len() - m,
        {
            if r[m] == x {
                seen = true;
            }
            m += 1;
        }
        proof {
            assert(seen == r@.contains(x));
        }
        if !seen {
            r.push(x);
        }
        k += 1;
    }
    r
}

/// Clusters, visual order and raw stops of a non-empty text at the levels
/// of `info`.
fn layout(cs: &Vec<char>, offs: &Vec<usize>, info: &BidiInfo) -> (r: (Vec<ClusterInfo>, Vec<usize>))
    requires
        cs@.len() > 0,
        offs@.len() == cs@.len() + 1,
        forall|k: int| 0 <= k <= cs@.len() ==> #[trigger] offs@[k] == byte_pos(cs@, k),
    ensures
        r.0@ == spec_clusters(cs@, info.levels@, info.paragraph_level),
        r.1@ == raw_stops(cs@, info.levels@, info.paragraph_level),
        r.1@.len() > 0,
{
    let cl = build_clusters(cs, offs, info);
    let lv = levels_of(&cl);
    let vis = compute_reorder(&lv);
    proof {
        lemma_reorder_permutation(lv@);
        assert forall|k: int| 0 <= k < vis@.len() implies (#[trigger] vis@[k]) < cl@.len() by {
            assert(vis@[k] < lv@.len());
        }
    }
    let stops = build_visual_stops(&cl, &vis);
    (cl, stops)
}

/// The visual cursor stops of `text`: byte offsets in screen left-to-right
/// order, each offset once (its first occurrence).
pub fn visual_cursor_stops(text: &str) -> (r: Vec<usize>)
    ensures
        r@ == spec_visual_cursor_stops(text@, text_levels(text@), text_para(text@)),
        r@.no_duplicates(),
{
    let info = resolve(text, None);
    let cs = chars_of(text);
    if cs.len() == 0 {
        let mut r: Vec<usize> = Vec::new();
        r.push(0);
        proof {
            assert(bidi_info_ok(classes_of_text(text@), None, info));
        }
        return r;
    }
    let _len = str_len(text);
    let offs = byte_offsets(&cs);
    let (_cl, raw) = layout(&cs, &offs, &info);
    let r = dedup_stops(&raw);
    proof {
        assert(bidi_info_ok(classes_of_text(text@), None, info));
        lemma_dedup(raw@, raw@.len() as int);
    }
    r
}

fn matches_of(s: &Vec<usize>, cur: usize) -> (m: Vec<usize>)
    ensures
        m@.map_values(|i: usize| i as int) == match_indices(s@, cur as int, s@.len() as int),
        forall|j: int| 0 <= j < m@.len() ==> (#[trigger] m@[j]) < s@.len(),
{
    let mut m: Vec<usize> = Vec::new();
    let mut k: usize = 0;
    while k < s.len()
        invariant
            k <= s@.len(),
            m@.map_values(|i: usize| i as int) == match_indices(s@, cur as int, k as int),
            forall|j: int| 0 <= j < m@.len() ==> (#[trigger] m@[j]) < k,
        decreases s@.len() - k,
    {
        if s[k] == cur {
            m.push(k);
            proof {
                assert(m@.map_values(|i: usize| i as int) == m@.drop_last().map_values(|i: usize| i as int).push(k as int));
            }
        }
        k += 1;
    }
    m
}

fn level_before_exec(cl: &Vec<ClusterInfo>, cur: usize) -> (r: u8)
    ensures
        r == level_before(cl@, cur as int, cl@.len() as int),
{
    let mut k = cl.len();
    while k > 0
        invariant
            k <= cl@.len(),
            level_before(cl@, cur as int, k as int) == level_before(cl@, cur as int, cl@.len() as int),
        decreases k,
    {
        let c = cl[k - 1];
        if c.byte_end <= cur && c.byte_end > 0 {
            return c.level;
        }
        k -= 1;
    }
    0
}

fn level_at_exec(cl: &Vec<ClusterInfo>, cur: usize) -> (r: u8)
    ensures
        r == level_at(cl@, cur as int, 0),
{
    let mut k: usize = 0;
    while k < cl.len()
        invariant
            k <= cl@.len(),
            level_at(cl@, cur as int, k as int) == level_at(cl@, cur as int, 0),
        decreases cl@.len() - k,
    {
        let c = cl[k];
        if c.byte_start > cur {
            return 0;
        }
        if c.byte_start == cur {
            return c.level;
        }
        k += 1;
    }
    0
}

/// The stop index of `current` (see `stop_index`).
fn resolve_stop_index(s: &Vec<usize>, current: usize, hint: usize, cl: &Vec<ClusterInfo>) -> (r: usize)
    requires
        s@.len() > 0,
    ensures
        r == stop_index(s@, current as int, hint as int, cl@),
        r < s@.len(),
{
    if hint < s.len() && s[hint] == current {
        return hint;
    }
    let ms = matches_of(s, current);
    proof {
        assert(ms@.len() == match_indices(s@, current as int, s@.len() as int).len());
    }
    if ms.len() == 0 {
        proof {
            assert(stop_index(s@, current as int, hint as int, cl@) == first_at_least(s@, current as int, 0));
        }
        let mut k: usize = 0;
        while k < s.len()
            invariant
                k <= s@.len(),
                s@.len() > 0,
                stop_index(s@, current as int, hint as int, cl@) == first_at_least(s@, current as int, 0),
                first_at_least(s@, current as int, k as int) == first_at_least(s@, current as int, 0),
            decreases s@.len() - k,
        {
            if s[k] >= current {
                return k;
            }
            k += 1;
        }
        return s.len() - 1;
    }
    proof {
        assert(ms@.map_values(|i: usize| i as int)[0] == ms@[0] as int);
        assert(ms@.map_values(|i: usize| i as int)[ms@.len() - 1] == ms@[ms@.len() - 1] as int);
    }
    if ms.len() == 1 {
        return ms[0];
    }
    let lb = level_before_exec(cl, current);
    let la = level_at_exec(cl, current);
    if lb > la { ms[ms.len() - 1] } else { ms[0] }
}

/// Index-aware move one stop to the right in visual order. `stop_hint` is
/// the stop index of the previous move (`usize::MAX` when unknown).
/// Returns the new byte offset and stop index.
pub fn move_right_visual_indexed(text: &str, current: usize, stop_hint: usize) -> (r: (usize, usize))
    ensures
        (r.0 as int, r.1 as int) == spec_move_right_visual(text@, text_levels(text@), text_para(text@),
            current as int, stop_hint as int),
        stop_hint == usize::MAX && text@.len() > 0 && is_ltr_line(text_levels(text@))
            && on_boundary(text@, current as int) ==> r.0 == spec_move_right(text@, current as int),
{
    let info = resolve(text, None);
    let cs = chars_of(text);
    proof {
        assert(bidi_info_ok(classes_of_text(text@), None, info));
    }
    if cs.len() == 0 {
        return (0, 0);
    }
    let _len = str_len(text);
    proof {
        if stop_hint == usize::MAX && is_ltr_line(text_levels(text@)) && on_boundary(text@, current as int) {
            assert(info.paragraph_level == 0);
            lemma_ltr_visual_right_is_logical(text@, text_levels(text@), current as int);
        }
    }
    let offs = byte_offsets(&cs);
    let (cl, stops) = layout(&cs, &offs, &info);
    let idx = resolve_stop_index(&stops, current, stop_hint, &cl);
    if idx < stops.len() - 1 {
        (stops[idx + 1], idx + 1)
    } else {
        (stops[stops.len() - 1], stops.len() - 1)
    }
}

/// Move the cursor one stop to the right in visual order.
pub fn move_right_visual(text: &str, current: usize) -> (r: usize)
    ensures
        r as int == spec_move_right_visual(text@, text_levels(text@), text_para(text@),
            current as int, usize::MAX as int).0,
        text@.len() > 0 && is_ltr_line(text_levels(text@)) && on_boundary(text@, current as int)
            ==> r == spec_move_right(text@, current as int),
{
    move_right_visual_indexed(text, current, usize::MAX).0
}

/// Index-aware move one stop to the left in visual order.
pub fn move_left_visual_indexed(text: &str, current: usize, stop_hint: usize) -> (r: (usize, usize))
    ensures
        (r.0 as int, r.1 as int) == spec_move_left_visual(text@, text_levels(text@), text_para(text@),
            current as int, stop_hint as int),
        stop_hint == usize::MAX && text@.len() > 0 && is_ltr_line(text_levels(text@))
            && on_boundary(text@, current as int) ==> r.0 == spec_move_left(text@, current as int),
{
    let info = resolve(text, None);
    let cs = chars_of(text);
    proof {
        assert(bidi_info_ok(classes_of_text(text@), None, info));
    }
    if cs.len() == 0 {
        return (0, 0);
    }
    let _len = str_len(text);
    proof {
        if stop_hint == usize::MAX && is_ltr_line(text_levels(text@)) && on_boundary(text@, current as int) {
            assert(info.paragraph_level == 0);
            lemma_ltr_visual_left_is_logical(text@, text_levels(text@), current as int);
        }
    }
    let offs = byte_offsets(&cs);
    let (cl, stops) = layout(&cs, &offs, &info);
    let idx = resolve_stop_index(&stops, current, stop_hint, &cl);
    if idx > 0 {
        (stops[idx - 1], idx - 1)
    } else {
        (stops[0], 0)
    }
}

/// Move the cursor one stop to the left in visual order.
pub fn move_left_visual(text: &str, current: usize) -> (r: usize)
    ensures
        r as int == spec_move_left_visual(text@, text_levels(text@), text_para(text@),
            current as int, usize::MAX as int).0,
        text@.len() > 0 && is_ltr_line(text_levels(text@)) && on_boundary(text@, current as int)
            ==> r == spec_move_left(text@, current as int),
{
    move_left_visual_indexed(text, current, usize::MAX).0
}

} // verus!

//! Safe truncation: never split a grapheme cluster (UAX #29), optionally
//! within a display width budget.
use vstd::prelude::*;

use crate::segment::grapheme::{grapheme_boundaries, grapheme_starts, next_cluster, next_cluster_start,
    lemma_cluster_end_bounds, lemma_cluster_starts, cluster_starts, grapheme_byte_starts};
use crate::text::{byte_len, byte_pos, chars_of, split_at_char, str_len, string_from_chars, lemma_byte_pos_mono};
use crate::width::{char_width, spec_char_width, spec_width, lemma_width_concat, lemma_width_bound};

verus! {

/// The longest run of whole clusters from `st` on whose total width, added
/// to `acc`, stays within `max`: the position where it ends.
pub open spec fn fit_end(cs: Seq<char>, st: int, acc: int, max: int) -> int
    decreases cs.len() - st,
{
    if st < 0 || st >= cs.len() {
        if st < 0 { 0 } else { cs.len() as int }
    } else {
        proof {
            lemma_cluster_end_bounds(cs, st, st + 1);
        }
        let e = next_cluster(cs, st);
        let w = spec_width(cs.subrange(st, e));
        if acc + w > max {
            st
        } else {
            fit_end(cs, e, acc + w, max)
        }
    }
}

/// Whether position `k` of `cs` is a grapheme cluster boundary: the start
/// of a cluster or the end of the text.
pub open spec fn is_grapheme_boundary(cs: Seq<char>, k: int) -> bool {
    k == cs.len() || grapheme_starts(cs).contains(k)
}

/// Where `fit_end` stops is the end of the text or a cluster start.
proof fn lemma_fit_end_boundary(cs: Seq<char>, st: int, acc: int, max: int)
    requires
        0 <= st <= cs.len(),
    ensures
        fit_end(cs, st, acc, max) == cs.len() || cluster_starts(cs, st).contains(fit_end(cs, st, acc, max)),
    decreases cs.len() - st,
{
    if st < cs.len() {
        lemma_cluster_end_bounds(cs, st, st + 1);
        let e = next_cluster(cs, st);
        let w = spec_width(cs.subrange(st, e));
        let c = cluster_starts(cs, st);
        assert(c == seq![st].add(cluster_starts(cs, e)));
        assert(c[0] == st);
        if acc + w <= max {
            lemma_fit_end_boundary(cs, e, acc + w, max);
            let f = fit_end(cs, e, acc + w, max);
            if f != cs.len() {
                let i = choose|i: int| 0 <= i < cluster_starts(cs, e).len() && cluster_starts(cs, e)[i] == f;
                assert(c[i + 1] == f);
            }
        }
    }
}

/// What `truncate_graphemes` keeps: nothing when no cluster is asked for,
/// all when there are no more clusters than asked, else everything before
/// the first cluster that is not kept.
pub open spec fn spec_truncate_graphemes(cs: Seq<char>, max: int) -> Seq<char> {
    if max == 0 || cs.len() == 0 {
        Seq::empty()
    } else if grapheme_starts(cs).len() <= max {
        cs
    } else {
        cs.take(grapheme_starts(cs)[max])
    }
}

/// Truncate `text` to at most `max_graphemes` grapheme clusters.
pub fn truncate_graphemes(text: &str, max_graphemes: usize) -> (r: &str)
    ensures
        r@ == spec_truncate_graphemes(text@, max_graphemes as int),
        r@ == text@.take(r@.len() as int),
        is_grapheme_boundary(text@, r@.len() as int),
{
    let total = str_len(text);
    if max_graphemes == 0 || total == 0 {
        let e = "";
        proof {
            reveal_strlit("");
            lemma_byte_pos_mono(text@, 0, text@.len() as int);
            lemma_cluster_starts(text@, 0);
            if text@.len() > 0 {
                assert(grapheme_starts(text@)[0] == 0);
            }
        }
        return e;
    }
    let bounds = grapheme_boundaries(text);
    if bounds.len() <= max_graphemes {
        return text;
    }
    let byte_cut = bounds[max_graphemes];
    let ghost k = grapheme_starts(text@)[max_graphemes as int];
    proof {
        lemma_cluster_starts(text@, 0);
        lemma_byte_pos_mono(text@, k, text@.len() as int);
    }
    let (head, _tail) = split_at_char(text, Ghost(k), byte_cut);
    proof {
        assert(grapheme_starts(text@)[max_graphemes as int] == k);
    }
    head
}


/// What `truncate_display_width` keeps: the longest run of whole clusters
/// from the start whose width stays within `max` (nothing when `max` is 0).
pub open spec fn spec_truncate_width(cs: Seq<char>, max: int) -> Seq<char> {
    if max == 0 {
        Seq::empty()
    } else {
        cs.take(fit_end(cs, 0, 0, max))
    }
}

proof fn lemma_fit_end(cs: Seq<char>, st: int, acc: int, max: int)
    requires
        0 <= st <= cs.len(),
        acc == spec_width(cs.take(st)),
        acc <= max,
    ensures
        st <= fit_end(cs, st, acc, max) <= cs.len(),
        spec_width(cs.take(fit_end(cs, st, acc, max))) <= max,
    decreases cs.len() - st,
{
    if st < cs.len() {
        lemma_cluster_end_bounds(cs, st, st + 1);
        let e = next_cluster(cs, st);
        let w = spec_width(cs.subrange(st, e));
        if acc + w <= max {
            assert(cs.take(e) == cs.take(st) + cs.subrange(st, e));
            lemma_width_concat(cs.take(st), cs.subrange(st, e));
            lemma_fit_end(cs, e, acc + w, max);
        }
    }
}

/// Truncate `text` on grapheme boundaries so that its display width does
/// not exceed `max_width`.
pub fn truncate_display_width(text: &str, max_width: u32) -> (r: String)
    ensures
        r@ == spec_truncate_width(text@, max_width as int),
        spec_width(r@) <= max_width,
        r@ == text@.take(r@.len() as int),
        is_grapheme_boundary(text@, r@.len() as int),
{
    let cs = chars_of(text);
    let n = cs.len();
    let ghost g = cs@;
    if max_width == 0 || n == 0 {
        proof {
            assert(g.take(0) == Seq::<char>::empty());
            lemma_cluster_starts(g, 0);
            if n > 0 {
                assert(grapheme_starts(g)[0] == 0);
            }
        }
        return String::new();
    }
    let max: u64 = max_width as u64;
    let mut acc: u64 = 0;
    let mut st: usize = 0;
    proof {
        assert(g.take(0) == Seq::<char>::empty());
    }
    while st < n
        invariant
            n == g.len(),
            g == cs@,
            g == text@,
            max == max_width,
            0 <= st <= n,
            acc == spec_width(g.take(st as int)),
            acc <= max,
            fit_end(g, st as int, acc as int, max as int) == fit_end(g, 0, 0, max as int),
        ensures
            0 <= st <= n,
            fit_end(g, 0, 0, max as int) == st,
        decreases n - st,
    {
        let e = next_cluster_start(&cs, st);
        let mut w: u64 = 0;
        let mut k = st;
        while k < e && w <= max
            invariant
                st <= k <= e <= n,
                n == g.len(),
                g == cs@,
                max <= u32::MAX,
                w <= max + 2,
                w == spec_width(g.subrange(st as int, k as int)),
            decreases e - k,
        {
            proof {
                assert(g.subrange(st as int, k + 1).drop_last() == g.subrange(st as int, k as int));
            }
            w = w + char_width(cs[k]) as u64;
            k += 1;
        }
        proof {
            assert(g.subrange(st as int, e as int) == g.subrange(st as int, k as int) + g.subrange(k as int, e as int));
            lemma_width_concat(g.subrange(st as int, k as int), g.subrange(k as int, e as int));
            lemma_cluster_end_bounds(g, st as int, st + 1);
        }
        if acc + w > max {
            proof {
                assert(fit_end(g, st as int, acc as int, max as int) == st);
            }
            break;
        }
        proof {
            assert(g.take(e as int) == g.take(st as int) + g.subrange(st as int, e as int));
            lemma_width_concat(g.take(st as int), g.subrange(st as int, e as int));
        }
        acc = acc + w;
        st = e;
        proof {
            if st == n {
                assert(fit_end(g, st as int, acc as int, max as int) == n);
            }
        }
    }
    proof {
        lemma_fit_end(g, 0, 0, max as int);
        lemma_fit_end_boundary(g, 0, 0, max as int);
        assert(g.take(0) == Seq::<char>::empty());
    }
    string_from_chars(&cs, 0, st)
}

} // verus!

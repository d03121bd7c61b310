//! UAX #29: extended grapheme cluster boundaries (GB3-GB9b, GB11, GB12/13,
//! and the Indic conjunct rules).
use vstd::prelude::*;

use crate::data::grapheme_break::{gcb, spec_gcb, Gcb};
use crate::text::{byte_len, byte_pos, chars_of, is_char_start, lemma_byte_pos_mono, lemma_char_start_at, str_len, utf8_len_of};

verus! {

/// Whether the rules put a boundary between `prev` and `next`, given the
/// class before `prev` in the same cluster (`pp`), the character `prev_ch`
/// of class `prev`, and the number `ri` of regional indicators that end
/// the cluster so far.
pub open spec fn gb_break(pp: Option<Gcb>, prev: Gcb, next: Gcb, prev_ch: char, ri: int) -> bool {
    if prev == Gcb::Cr && next == Gcb::Lf {
        false
    } else if prev == Gcb::Control || prev == Gcb::Cr || prev == Gcb::Lf {
        true
    } else if prev == Gcb::L && (next == Gcb::L || next == Gcb::V || next == Gcb::Lv || next == Gcb::Lvt) {
        false
    } else if (prev == Gcb::Lv || prev == Gcb::V) && (next == Gcb::V || next == Gcb::T) {
        false
    } else if (prev == Gcb::Lvt || prev == Gcb::T) && next == Gcb::T {
        false
    } else if prev == Gcb::RegionalIndicator && next == Gcb::RegionalIndicator {
        ri % 2 == 0
    } else if next == Gcb::Extend || next == Gcb::Zwj || next == Gcb::SpacingMark {
        false
    } else if prev == Gcb::Prepend && !(next == Gcb::Cr || next == Gcb::Lf || next == Gcb::Control) {
        false
    } else if prev == Gcb::Zwj && next == Gcb::ExtendedPictographic
        && (pp == Some(Gcb::ExtendedPictographic) || pp == Some(Gcb::Extend)) {
        false
    } else if prev == Gcb::Zwj && next == Gcb::IndicLetter
        && (pp == Some(Gcb::ConjunctLinker) || pp == Some(Gcb::IndicLetter) || pp == Some(Gcb::Extend)) {
        false
    } else if prev == Gcb::ExtendedPictographic && next == Gcb::Extend {
        false
    } else if next == Gcb::ConjunctLinker {
        false
    } else if prev == Gcb::ConjunctLinker && (next == Gcb::IndicLetter || next == Gcb::Extend
        || next == Gcb::Zwj || next == Gcb::SpacingMark || next == Gcb::ConjunctLinker) {
        if prev_ch == '\u{1B01}' && next == Gcb::IndicLetter {
            true
        } else if prev_ch == '\u{1B44}' && next == Gcb::IndicLetter {
            false
        } else {
            !(pp == Some(Gcb::IndicLetter) || pp == Some(Gcb::ConjunctLinker) || pp == Some(Gcb::Extend)
                || pp == Some(Gcb::Zwj) || pp == Some(Gcb::SpacingMark))
        }
    } else {
        true
    }
}

/// Regional indicators that end `cs[st..j]`, counted up to 255.
pub open spec fn ri_run(cs: Seq<char>, st: int, j: int) -> int
    decreases j - st,
{
    if j <= st {
        0
    } else if spec_gcb(cs[j - 1]) == Gcb::RegionalIndicator {
        let r = ri_run(cs, st, j - 1) + 1;
        if r > 255 { 255 } else { r }
    } else {
        0
    }
}

/// Whether a cluster that starts at `st` ends before position `j`.
pub open spec fn breaks_at(cs: Seq<char>, st: int, j: int) -> bool {
    let pp = if j - 2 >= st { Some(spec_gcb(cs[j - 2])) } else { None };
    gb_break(pp, spec_gcb(cs[j - 1]), spec_gcb(cs[j]), cs[j - 1], ri_run(cs, st, j))
}

/// The end of the cluster that starts at `st`, searching from `j`.
pub open spec fn cluster_end(cs: Seq<char>, st: int, j: int) -> int
    decreases cs.len() - j,
{
    if j <= st || j >= cs.len() {
        cs.len() as int
    } else if breaks_at(cs, st, j) {
        j
    } else {
        cluster_end(cs, st, j + 1)
    }
}

/// The start of the cluster after the one that starts at `st`.
pub open spec fn next_cluster(cs: Seq<char>, st: int) -> int {
    cluster_end(cs, st, st + 1)
}

pub proof fn lemma_cluster_end_bounds(cs: Seq<char>, st: int, j: int)
    requires
        0 <= st < j,
        st < cs.len(),
    ensures
        st < cluster_end(cs, st, j) <= cs.len(),
        j <= cs.len() ==> j <= cluster_end(cs, st, j),
    decreases cs.len() - j,
{
    if j < cs.len() && !breaks_at(cs, st, j) {
        lemma_cluster_end_bounds(cs, st, j + 1);
    }
}

/// The character positions where the clusters from `st` on start.
pub open spec fn cluster_starts(cs: Seq<char>, st: int) -> Seq<int>
    decreases cs.len() - st,
{
    if st < 0 || st >= cs.len() {
        Seq::empty()
    } else {
        proof {
            lemma_cluster_end_bounds(cs, st, st + 1);
        }
        seq![st].add(cluster_starts(cs, next_cluster(cs, st)))
    }
}

/// The grapheme cluster boundaries of `cs`, as character positions.
pub open spec fn grapheme_starts(cs: Seq<char>) -> Seq<int> {
    cluster_starts(cs, 0)
}

/// The same boundaries as byte offsets in the UTF-8 encoding.
pub open spec fn grapheme_byte_starts(cs: Seq<char>) -> Seq<usize> {
    grapheme_starts(cs).map_values(|i: int| byte_pos(cs, i) as usize)
}

/// Cluster starts from `st` on are strictly increasing positions in
/// `[st, len)`, the first being `st`.
pub proof fn lemma_cluster_starts(cs: Seq<char>, st: int)
    requires
        0 <= st,
    ensures
        forall|k: int| 0 <= k < cluster_starts(cs, st).len()
            ==> st <= #[trigger] cluster_starts(cs, st)[k] < cs.len(),
        forall|a: int, b: int| 0 <= a < b < cluster_starts(cs, st).len()
            ==> cluster_starts(cs, st)[a] < cluster_starts(cs, st)[b],
        st < cs.len() ==> cluster_starts(cs, st).len() > 0 && cluster_starts(cs, st)[0] == st,
    decreases cs.len() - st,
{
    if st < cs.len() {
        lemma_cluster_end_bounds(cs, st, st + 1);
        let nx = next_cluster(cs, st);
        lemma_cluster_starts(cs, nx);
        let rest = cluster_starts(cs, nx);
        assert(cluster_starts(cs, st) == seq![st].add(rest));
        assert forall|a: int, b: int| 0 <= a < b < cluster_starts(cs, st).len()
            implies cluster_starts(cs, st)[a] < cluster_starts(cs, st)[b] by {
            if a == 0 {
                assert(cluster_starts(cs, st)[b] == rest[b - 1]);
            } else {
                assert(cluster_starts(cs, st)[a] == rest[a - 1]);
                assert(cluster_starts(cs, st)[b] == rest[b - 1]);
            }
        }
        assert forall|k: int| 0 <= k < cluster_starts(cs, st).len()
            implies st <= #[trigger] cluster_starts(cs, st)[k] < cs.len() by {
            if k > 0 {
                assert(cluster_starts(cs, st)[k] == rest[k - 1]);
            }
        }
    }
}

fn opt_is(pp: Option<Gcb>, g: Gcb) -> (b: bool)
    ensures
        b == (pp == Some(g)),
{
    match pp {
        Some(p) => p == g,
        None => false,
    }
}

/// GB rules between `prev` and `next` (see `gb_break`).
fn break_between(pp: Option<Gcb>, prev: Gcb, next: Gcb, prev_ch: char, ri: u8) -> (r: bool)
    ensures
        r == gb_break(pp, prev, next, prev_ch, ri as int),
{
    if prev == Gcb::Cr && next == Gcb::Lf {
        return false;
    }
    if prev == Gcb::Control || prev == Gcb::Cr || prev == Gcb::Lf {
        return true;
    }
    if prev == Gcb::L && (next == Gcb::L || next == Gcb::V || next == Gcb::Lv || next == Gcb::Lvt) {
        return false;
    }
    if (prev == Gcb::Lv || prev == Gcb::V) && (next == Gcb::V || next == Gcb::T) {
        return false;
    }
    if (prev == Gcb::Lvt || prev == Gcb::T) && next == Gcb::T {
        return false;
    }
    if prev == Gcb::RegionalIndicator && next == Gcb::RegionalIndicator {
        return ri % 2 == 0;
    }
    if next == Gcb::Extend || next == Gcb::Zwj || next == Gcb::SpacingMark {
        return false;
    }
    if prev == Gcb::Prepend && !(next == Gcb::Cr || next == Gcb::Lf || next == Gcb::Control) {
        return false;
    }
    if prev == Gcb::Zwj && next == Gcb::ExtendedPictographic
        && (opt_is(pp, Gcb::ExtendedPictographic) || opt_is(pp, Gcb::Extend)) {
        return false;
    }
    if prev == Gcb::Zwj && next == Gcb::IndicLetter
        && (opt_is(pp, Gcb::ConjunctLinker) || opt_is(pp, Gcb::IndicLetter) || opt_is(pp, Gcb::Extend)) {
        return false;
    }
    if prev == Gcb::ExtendedPictographic && next == Gcb::Extend {
        return false;
    }
    if next == Gcb::ConjunctLinker {
        return false;
    }
    if prev == Gcb::ConjunctLinker && (next == Gcb::IndicLetter || next == Gcb::Extend
        || next == Gcb::Zwj || next == Gcb::SpacingMark || next == Gcb::ConjunctLinker) {
        if prev_ch == '\u{1B01}' && next == Gcb::IndicLetter {
            return true;
        }
        if prev_ch == '\u{1B44}' && next == Gcb::IndicLetter {
            return false;
        }
        let has_indic_base = opt_is(pp, Gcb::IndicLetter) || opt_is(pp, Gcb::ConjunctLinker) || opt_is(pp, Gcb::Extend)
            || opt_is(pp, Gcb::Zwj) || opt_is(pp, Gcb::SpacingMark);
        return !has_indic_base;
    }
    true
}

/// The end of the cluster that starts at character `st` of `cs`.
pub fn next_cluster_start(cs: &Vec<char>, st: usize) -> (e: usize)
    requires
        st < cs@.len(),
    ensures
        e == next_cluster(cs@, st as int),
        st < e <= cs@.len(),
{
    proof {
        lemma_cluster_end_bounds(cs@, st as int, st + 1);
        assert(ri_run(cs@, st as int, st as int) == 0);
    }
    let n = cs.len();
    let mut prev_prev: Option<Gcb> = None;
    let mut prev = gcb(cs[st]);
    let mut prev_ch = cs[st];
    let mut ri: u8 = if prev == Gcb::RegionalIndicator { 1 } else { 0 };
    let mut j: usize = st + 1;
    while j < n
        invariant
            n == cs@.len(),
            st < j <= n,
            prev == spec_gcb(cs@[j - 1]),
            prev_ch == cs@[j - 1],
            prev_prev == (if j - 2 >= st { Some(spec_gcb(cs@[j - 2])) } else { None::<Gcb> }),
            ri == ri_run(cs@, st as int, j as int),
            cluster_end(cs@, st as int, j as int) == next_cluster(cs@, st as int),
        decreases n - j,
    {
        let next = gcb(cs[j]);
        if break_between(prev_prev, prev, next, prev_ch, ri) {
            return j;
        }
        if next == Gcb::RegionalIndicator {
            ri = if ri < 255 { ri + 1 } else { 255 };
        } else {
            ri = 0;
        }
        prev_prev = Some(prev);
        prev = next;
        prev_ch = cs[j];
        j += 1;
    }
    n
}

/// Iterator over grapheme cluster start byte offsets (UAX #29).
#[derive(Clone)]
pub struct GraphemeClusterBoundaries {
    chars: Vec<char>,
    next_char: usize,
    next_byte: usize,
}

impl GraphemeClusterBoundaries {
    /// The cursor lies within the text and `next_byte` is its byte offset.
    pub closed spec fn wf(self) -> bool {
        &&& self.next_char <= self.chars@.len()
        &&& self.next_byte == byte_pos(self.chars@, self.next_char as int)
        &&& byte_len(self.chars@) <= usize::MAX
    }

    /// The text being segmented.
    pub closed spec fn text(self) -> Seq<char> {
        self.chars@
    }

    /// The character position of the next cluster start to report.
    pub closed spec fn position(self) -> int {
        self.next_char as int
    }

    /// An iterator over the cluster starts of `s`.
    pub fn new(s: &str) -> (it: Self)
        ensures
            it.wf(),
            it.text() == s@,
            it.position() == 0,
    {
        let chars = chars_of(s);
        let _len = str_len(s);
        GraphemeClusterBoundaries { chars, next_char: 0, next_byte: 0 }
    }

    /// The byte offset of the next cluster start, or `None` at the end.
    pub fn next(&mut self) -> (r: Option<usize>)
        requires
            old(self).wf(),
        ensures
            final(self).wf(),
            final(self).text() == old(self).text(),
            old(self).position() < old(self).text().len() ==> {
                &&& r == Some(byte_pos(old(self).text(), old(self).position()) as usize)
                &&& final(self).position() == next_cluster(old(self).text(), old(self).position())
            },
            old(self).position() >= old(self).text().len() ==> r.is_none() && final(self).position() == old(self).position(),
    {
        if self.next_char >= self.chars.len() {
            return None;
        }
        let start_byte = self.next_byte;
        let e = next_cluster_start(&self.chars, self.next_char);
        let mut b = self.next_byte;
        let mut k = self.next_char;
        while k < e
            invariant
                self.next_char <= k <= e <= self.chars@.len(),
                b == byte_pos(self.chars@, k as int),
                byte_len(self.chars@) <= usize::MAX,
            decreases e - k,
        {
            proof {
                lemma_byte_pos_mono(self.chars@, k + 1, self.chars@.len() as int);
            }
            b = b + utf8_len_of(self.chars[k]);
            k += 1;
        }
        self.next_char = e;
        self.next_byte = b;
        Some(start_byte)
    }
}

/// An iterator over the grapheme cluster starts of `s`.
pub fn grapheme_cluster_boundaries(s: &str) -> (it: GraphemeClusterBoundaries)
    ensures
        it.wf(),
        it.text() == s@,
        it.position() == 0,
{
    GraphemeClusterBoundaries::new(s)
}

/// Byte offsets of the grapheme cluster starts of `s`; the first is 0.
pub fn grapheme_boundaries(s: &str) -> (v: Vec<usize>)
    ensures
        v@ == grapheme_byte_starts(s@),
        s@.len() > 0 ==> v@.len() > 0 && v@[0] == 0,
        s@.len() == 0 ==> v@.len() == 0,
        forall|a: int, b: int| 0 <= a < b < v@.len() ==> v@[a] < v@[b],
        forall|k: int| 0 <= k < v@.len() ==> v@[k] < byte_len(s@),
        forall|k: int| 0 <= k < v@.len() ==> is_char_start(s@, #[trigger] v@[k] as int),
{
    let _total = str_len(s);
    let mut v: Vec<usize> = Vec::new();
    let mut it = grapheme_cluster_boundaries(s);
    let ghost cs = s@;
    proof {
        lemma_cluster_starts(cs, 0);
    }
    loop
        invariant
            it.wf(),
            it.text() == cs,
            0 <= it.position() <= cs.len(),
            cluster_starts(cs, 0) == cluster_starts(cs, 0).take(v@.len() as int) + cluster_starts(cs, it.position()),
            v@ == cluster_starts(cs, 0).take(v@.len() as int).map_values(|i: int| byte_pos(cs, i) as usize),
        ensures
            v@ == grapheme_byte_starts(cs),
        decreases cs.len() - it.position(),
    {
        let ghost p = it.position();
        let ghost pre = v@;
        match it.next() {
            Some(off) => {
                proof {
                    lemma_cluster_end_bounds(cs, p, p + 1);
                    let full = cluster_starts(cs, 0);
                    let k = pre.len() as int;
                    assert(cluster_starts(cs, p) == seq![p].add(cluster_starts(cs, it.position())));
                    assert(full[k] == p);
                    assert(full.take(k + 1) == full.take(k).push(p));
                    assert(full == full.take(k + 1) + cluster_starts(cs, it.position()));
                }
                v.push(off);
                proof {
                    let full = cluster_starts(cs, 0);
                    assert(v@ == full.take(v@.len() as int).map_values(|i: int| byte_pos(cs, i) as usize));
                }
            },
            None => {
                proof {
                    let full = cluster_starts(cs, 0);
                    assert(cluster_starts(cs, p) == Seq::<int>::empty());
                    assert(full.take(v@.len() as int) == full);
                    assert(v@ == grapheme_byte_starts(cs));
                }
                break;
            },
        }
    }
    proof {
        let full = cluster_starts(cs, 0);
        assert(v@ == grapheme_byte_starts(cs));
        assert forall|a: int, b: int| 0 <= a < b < v@.len() implies v@[a] < v@[b] by {
            lemma_byte_pos_mono(cs, full[a], full[b]);
            lemma_byte_pos_mono(cs, full[b], cs.len() as int);
            assert(v@[a] == byte_pos(cs, full[a]) as usize);
            assert(v@[b] == byte_pos(cs, full[b]) as usize);
        }
        assert forall|k: int| 0 <= k < v@.len() implies v@[k] < byte_len(cs) by {
            lemma_byte_pos_mono(cs, full[k], cs.len() as int);
            assert(v@[k] == byte_pos(cs, full[k]) as usize);
        }
        assert forall|k: int| 0 <= k < v@.len() implies is_char_start(cs, #[trigger] v@[k] as int) by {
            lemma_char_start_at(cs, full[k]);
            assert(v@[k] == byte_pos(cs, full[k]) as usize);
        }
    }
    v
}


proof fn lemma_cluster_end_breaks(cs: Seq<char>, st: int, j: int)
    requires
        0 <= st < j,
        cluster_end(cs, st, j) < cs.len(),
    ensures
        breaks_at(cs, st, cluster_end(cs, st, j)),
    decreases cs.len() - j,
{
    if j < cs.len() && !breaks_at(cs, st, j) {
        lemma_cluster_end_breaks(cs, st, j + 1);
    }
}

/// Every cluster start after `st` is a position where the rules break,
/// seen from an earlier cluster start.
proof fn lemma_start_breaks(cs: Seq<char>, st: int, k: int)
    requires
        0 <= st < k,
        cluster_starts(cs, st).contains(k),
    ensures
        exists|s2: int| st <= s2 < k && cluster_starts(cs, st).contains(s2) && breaks_at(cs, s2, k),
    decreases cs.len() - st,
{
    if st >= cs.len() {
        assert(cluster_starts(cs, st).len() == 0);
    } else {
        lemma_cluster_end_bounds(cs, st, st + 1);
        let nx = next_cluster(cs, st);
        let rest = cluster_starts(cs, nx);
        let all = cluster_starts(cs, st);
        assert(all == seq![st].add(rest));
        let i = choose|i: int| 0 <= i < all.len() && all[i] == k;
        assert(i > 0);
        assert(rest[i - 1] == k);
        lemma_cluster_starts(cs, nx);
        assert(all[0] == st);
        if k == nx {
            lemma_cluster_end_breaks(cs, st, st + 1);
            assert(breaks_at(cs, st, k));
        } else {
            assert(nx <= k);
            assert(rest.contains(k));
            lemma_start_breaks(cs, nx, k);
            let s2 = choose|s2: int| nx <= s2 < k && rest.contains(s2) && breaks_at(cs, s2, k);
            let i2 = choose|i2: int| 0 <= i2 < rest.len() && rest[i2] == s2;
            assert(all[i2 + 1] == s2);
        }
    }
}

/// GB9c: an Indic consonant, a conjunct linker (virama) and a consonant
/// form one cluster: no grapheme cluster boundary lies between the linker
/// and the consonant after it (U+1B01, which does not bind the next
/// letter, excepted).
pub proof fn lemma_conjunct_not_split(cs: Seq<char>, k: int)
    requires
        2 <= k < cs.len(),
        spec_gcb(cs[k - 2]) == Gcb::IndicLetter,
        spec_gcb(cs[k - 1]) == Gcb::ConjunctLinker,
        spec_gcb(cs[k]) == Gcb::IndicLetter,
        cs[k - 1] != '\u{1B01}',
    ensures
        !grapheme_starts(cs).contains(k),
{
    if grapheme_starts(cs).contains(k) {
        lemma_start_breaks(cs, 0, k);
        let s2 = choose|s2: int| 0 <= s2 < k && cluster_starts(cs, 0).contains(s2) && breaks_at(cs, s2, k);
        if s2 == k - 1 {
            lemma_start_breaks(cs, 0, k - 1);
            let s3 = choose|s3: int| 0 <= s3 < k - 1 && cluster_starts(cs, 0).contains(s3) && breaks_at(cs, s3, k - 1);
            assert(!breaks_at(cs, s3, k - 1));
        } else {
            assert(!breaks_at(cs, s2, k));
        }
    }
}


/// Pairs of grapheme break classes that never have a cluster boundary
/// between them: CR LF (GB3), Hangul syllable sequences (GB6-GB8), a mark,
/// ZWJ or conjunct linker after anything but a control (GB9, GB9a and the
/// linker half of GB9c), and anything but a control after a prepended
/// character (GB9b).
pub open spec fn gb_joined(p: Gcb, x: Gcb) -> bool {
    let not_control_p = !(p == Gcb::Control || p == Gcb::Cr || p == Gcb::Lf);
    ||| p == Gcb::Cr && x == Gcb::Lf
    ||| p == Gcb::L && (x == Gcb::L || x == Gcb::V || x == Gcb::Lv || x == Gcb::Lvt)
    ||| (p == Gcb::Lv || p == Gcb::V) && (x == Gcb::V || x == Gcb::T)
    ||| (p == Gcb::Lvt || p == Gcb::T) && x == Gcb::T
    ||| not_control_p && (x == Gcb::Extend || x == Gcb::Zwj || x == Gcb::SpacingMark || x == Gcb::ConjunctLinker)
    ||| p == Gcb::Prepend && !(x == Gcb::Control || x == Gcb::Cr || x == Gcb::Lf)
}

/// GB3, GB6-GB9b: no grapheme cluster boundary lies between two
/// neighbouring characters whose classes are joined.
pub proof fn lemma_joined_not_split(cs: Seq<char>, k: int)
    requires
        1 <= k < cs.len(),
        gb_joined(spec_gcb(cs[k - 1]), spec_gcb(cs[k])),
    ensures
        !grapheme_starts(cs).contains(k),
{
    if grapheme_starts(cs).contains(k) {
        lemma_start_breaks(cs, 0, k);
        let s2 = choose|s2: int| 0 <= s2 < k && cluster_starts(cs, 0).contains(s2) && breaks_at(cs, s2, k);
        assert(!breaks_at(cs, s2, k));
    }
}


proof fn lemma_cluster_end_at_most(cs: Seq<char>, st: int, j: int, k: int)
    requires
        0 <= st < j <= k < cs.len(),
        breaks_at(cs, st, k),
    ensures
        cluster_end(cs, st, j) <= k,
    decreases k - j,
{
    if !breaks_at(cs, st, j) {
        lemma_cluster_end_at_most(cs, st, j + 1, k);
    }
}

/// A position where the rules break whatever the cluster is a cluster
/// start, from any earlier cluster start on.
proof fn lemma_always_breaks_is_start(cs: Seq<char>, st: int, k: int)
    requires
        0 <= st < k < cs.len(),
        forall|x: int| 0 <= x < k ==> #[trigger] breaks_at(cs, x, k),
    ensures
        cluster_starts(cs, st).contains(k),
    decreases k - st,
{
    lemma_cluster_end_bounds(cs, st, st + 1);
    let nx = next_cluster(cs, st);
    assert(breaks_at(cs, st, k));
    lemma_cluster_end_at_most(cs, st, st + 1, k);
    let rest = cluster_starts(cs, nx);
    assert(cluster_starts(cs, st) == seq![st].add(rest));
    if nx == k {
        lemma_cluster_starts(cs, nx);
        assert(cluster_starts(cs, st)[1] == k);
    } else {
        lemma_always_breaks_is_start(cs, nx, k);
        let i = choose|i: int| 0 <= i < rest.len() && rest[i] == k;
        assert(cluster_starts(cs, st)[i + 1] == k);
    }
}

/// Whether `g` is a control class: Control, CR or LF.
pub open spec fn is_control_class(g: Gcb) -> bool {
    g == Gcb::Control || g == Gcb::Cr || g == Gcb::Lf
}

/// GB4, GB5: a cluster boundary lies before and after every control
/// character, CR and LF, except between CR and LF.
pub proof fn lemma_boundary_at_control(cs: Seq<char>, k: int)
    requires
        1 <= k < cs.len(),
        is_control_class(spec_gcb(cs[k - 1])) || is_control_class(spec_gcb(cs[k])),
        !(spec_gcb(cs[k - 1]) == Gcb::Cr && spec_gcb(cs[k]) == Gcb::Lf),
    ensures
        grapheme_starts(cs).contains(k),
{
    assert forall|x: int| 0 <= x < k implies #[trigger] breaks_at(cs, x, k) by {}
    lemma_always_breaks_is_start(cs, 0, k);
}


/// GB11: an emoji ZWJ sequence stays one cluster: no boundary lies between
/// a ZWJ that follows an extended pictographic character and the extended
/// pictographic character after it.
pub proof fn lemma_emoji_zwj_not_split(cs: Seq<char>, k: int)
    requires
        2 <= k < cs.len(),
        spec_gcb(cs[k - 2]) == Gcb::ExtendedPictographic,
        spec_gcb(cs[k - 1]) == Gcb::Zwj,
        spec_gcb(cs[k]) == Gcb::ExtendedPictographic,
    ensures
        !grapheme_starts(cs).contains(k),
{
    if grapheme_starts(cs).contains(k) {
        lemma_start_breaks(cs, 0, k);
        let s2 = choose|s2: int| 0 <= s2 < k && cluster_starts(cs, 0).contains(s2) && breaks_at(cs, s2, k);
        if s2 == k - 1 {
            lemma_joined_not_split(cs, k - 1);
        } else {
            assert(!breaks_at(cs, s2, k));
        }
    }
}

} // verus!

//! UAX #9: Unicode Bidirectional Algorithm.
//!
//! Resolves mixed LTR/RTL text to embedding levels and a visual order.
//! Implements rules P2-P3, X1-X10, W1-W7, N0-N2, I1-I2 and L1-L2.
use vstd::prelude::*;

use crate::data::bidi_class::{BidiClass, bidi_class, spec_bidi_class};
use crate::text::chars_of;
use self::brackets::{resolve_bracket_pairs, spec_n0, is_bracket_char, lemma_n0_without_brackets};
use self::explicit::{apply_explicit_levels, apply_x9, spec_explicit, is_removed_by_x9, lemma_x_run_at_least};
use self::neutral::{spec_neutral, increasing_below, resolve_neutral_types, resolve_implicit_levels, apply_l1, is_l1_whitespace, l1_trailing, l1_level, implicit_level};
use self::reorder::{compute_reorder, spec_reorder};
use self::runs::{
    build_isolating_run_sequences, valid_sequences, IsolatingRunSequence, isolating_run_sequences, seqs_view,
    dir_of_level,
};
use self::weak::{resolve_weak_types, spec_weak};

pub mod brackets;
pub mod explicit;
pub mod neutral;
pub mod reorder;
pub mod runs;
pub mod weak;

pub use crate::data::bidi_class::BidiClass as Class;

verus! {

/// Maximum explicit embedding depth (UAX #9 BD2).
pub const MAX_DEPTH: u8 = 125;

/// Level given to characters that X9 removes.
pub const REMOVED_LEVEL: u8 = 255;

/// Isolate initiators: LRI, RLI, FSI.
pub open spec fn is_isolate_initiator(c: BidiClass) -> bool {
    c == BidiClass::LRI || c == BidiClass::RLI || c == BidiClass::FSI
}

/// P2/P3 scan from `i` with `depth` unmatched isolate initiators: the
/// level of the first strong character outside any isolate, or 0.
pub open spec fn p2_level(cs: Seq<BidiClass>, i: int, depth: int) -> u8
    decreases cs.len() - i,
{
    if i < 0 || i >= cs.len() {
        0
    } else if is_isolate_initiator(cs[i]) {
        p2_level(cs, i + 1, depth + 1)
    } else if cs[i] == BidiClass::PDI {
        p2_level(cs, i + 1, if depth > 0 { depth - 1 } else { 0 })
    } else if depth == 0 && cs[i] == BidiClass::L {
        0
    } else if depth == 0 && (cs[i] == BidiClass::R || cs[i] == BidiClass::AL) {
        1
    } else {
        p2_level(cs, i + 1, depth)
    }
}

/// The paragraph embedding level that P2/P3 give to `cs`.
pub open spec fn spec_paragraph_level(cs: Seq<BidiClass>) -> u8 {
    p2_level(cs, 0, 0)
}

/// P2/P3 applied to the text after an FSI up to its matching PDI; `depth`
/// counts the open isolates, the FSI's own included.
pub open spec fn fsi_level(cs: Seq<BidiClass>, i: int, depth: int) -> u8
    decreases cs.len() - i,
{
    if i < 0 || i >= cs.len() {
        0
    } else if is_isolate_initiator(cs[i]) {
        fsi_level(cs, i + 1, depth + 1)
    } else if cs[i] == BidiClass::PDI {
        if depth - 1 == 0 {
            0
        } else {
            fsi_level(cs, i + 1, depth - 1)
        }
    } else if depth == 1 && cs[i] == BidiClass::L {
        0
    } else if depth == 1 && (cs[i] == BidiClass::R || cs[i] == BidiClass::AL) {
        1
    } else {
        fsi_level(cs, i + 1, depth)
    }
}

/// P2/P3: the paragraph level, from the first strong character that is not
/// inside an isolate.
pub fn determine_paragraph_level(classes: &[BidiClass]) -> (r: u8)
    ensures
        r == spec_paragraph_level(classes@),
        r <= 1,
{
    let mut isolate_depth: usize = 0;
    let mut i: usize = 0;
    while i < classes.len()
        invariant
            i <= classes.len(),
            isolate_depth <= i,
            p2_level(classes@, i as int, isolate_depth as int) == spec_paragraph_level(classes@),
        decreases classes.len() - i,
    {
        let bc = classes[i];
        match bc {
            BidiClass::LRI | BidiClass::RLI | BidiClass::FSI => {
                isolate_depth += 1;
            },
            BidiClass::PDI => {
                if isolate_depth > 0 {
                    isolate_depth -= 1;
                }
            },
            _ => {
                if isolate_depth == 0 {
                    match bc {
                        BidiClass::L => return 0,
                        BidiClass::R | BidiClass::AL => return 1,
                        _ => {},
                    }
                }
            },
        }
        i += 1;
    }
    0
}

/// X5c: the direction of an FSI, from the text between it (at `start - 1`)
/// and its matching PDI.
pub fn determine_paragraph_level_for_fsi(classes: &[BidiClass], start: usize) -> (r: u8)
    ensures
        r == fsi_level(classes@, start as int, 1),
{
    // `extra`: the number of open isolates inside the FSI's (depth - 1).
    let mut extra: usize = 0;
    let mut i: usize = start;
    while i < classes.len()
        invariant
            start <= i,
            extra <= i - start,
            fsi_level(classes@, i as int, extra + 1) == fsi_level(classes@, start as int, 1),
        decreases classes.len() - i,
    {
        match classes[i] {
            BidiClass::LRI | BidiClass::RLI | BidiClass::FSI => extra += 1,
            BidiClass::PDI => {
                if extra == 0 {
                    return 0;
                }
                extra -= 1;
            },
            _ => {
                if extra == 0 {
                    match classes[i] {
                        BidiClass::L => return 0,
                        BidiClass::R | BidiClass::AL => return 1,
                        _ => {},
                    }
                }
            },
        }
        i += 1;
    }
    0
}


/// Result of running the bidi algorithm on a single paragraph.
#[derive(Debug, Clone)]
pub struct BidiInfo {
    /// Resolved paragraph embedding level (0 = LTR, 1 = RTL).
    pub paragraph_level: u8,
    /// Resolved embedding level for each input element; characters removed
    /// by X9 have level 255.
    pub levels: Vec<u8>,
    /// Visual ordering: indices into the input, left to right, without the
    /// characters removed by X9.
    pub reorder: Vec<usize>,
}

/// The paragraph level: the override when one is given, else P2/P3.
pub open spec fn para_for(cs: Seq<BidiClass>, paragraph_override: Option<u8>) -> u8 {
    match paragraph_override {
        Some(l) => l,
        None => spec_paragraph_level(cs),
    }
}

/// The levels that X1-X8 assign, starting from the paragraph level.
pub open spec fn explicit_levels(cs: Seq<BidiClass>, para: u8) -> Seq<u8> {
    spec_explicit(cs, Seq::new(cs.len(), |_i: int| para), para).1
}

/// A left-to-right line: every level is 0, or 255 (removed by X9).
pub open spec fn is_ltr_line(lv: Seq<u8>) -> bool {
    forall|i: int| 0 <= i < lv.len() ==> #[trigger] lv[i] == 0 || lv[i] == REMOVED_LEVEL
}

/// Every explicit level is at least the paragraph level.
pub proof fn lemma_explicit_at_least_para(cs: Seq<BidiClass>, para: u8)
    ensures
        forall|j: int| 0 <= j < cs.len() ==> #[trigger] explicit_levels(cs, para)[j] >= para,
{
    lemma_x_run_at_least(cs, Seq::new(cs.len(), |_i: int| para), para, cs.len() as int);
}

/// With no strong character and no isolate control, P2/P3 find level 0.
proof fn lemma_p2_no_strong(cs: Seq<BidiClass>, i: int, depth: int)
    requires
        forall|j: int| 0 <= j < cs.len() ==> is_removed_by_x9(#[trigger] cs[j]),
    ensures
        p2_level(cs, i, depth) == 0,
    decreases cs.len() - i,
{
    if 0 <= i < cs.len() {
        assert(is_removed_by_x9(cs[i]));
        lemma_p2_no_strong(cs, i + 1, depth);
    }
}

/// Whether L1 resets position `i` to the paragraph level.
pub open spec fn l1_resets(cs: Seq<BidiClass>, i: int) -> bool {
    cs[i] == BidiClass::B || cs[i] == BidiClass::S
        || (is_l1_whitespace(cs[i]) && l1_trailing(cs, i + 1))
}

/// What a resolved paragraph satisfies: the paragraph level of P2/P3 or
/// the override; one level per input element; 255 exactly for the
/// elements that X9 removes; the paragraph level where L1 resets; else the
/// explicit level raised by at most two (I1/I2); and the L2 visual order
/// of those levels.
pub open spec fn bidi_info_ok(cs: Seq<BidiClass>, paragraph_override: Option<u8>, info: BidiInfo) -> bool {
    let para = para_for(cs, paragraph_override);
    let e = explicit_levels(cs, para);
    let lv = info.levels@;
    &&& info.paragraph_level == para
    &&& lv.len() == cs.len()
    &&& forall|i: int| 0 <= i < cs.len() ==> {
        &&& is_removed_by_x9(cs[i]) ==> #[trigger] lv[i] == REMOVED_LEVEL
        &&& (!is_removed_by_x9(cs[i]) && l1_resets(cs, i)) ==> lv[i] == para
        &&& (!is_removed_by_x9(cs[i]) && !l1_resets(cs, i)) ==> e[i] <= lv[i] <= e[i] + 2
    }
    &&& info.reorder@ == spec_reorder(lv)
}

/// X9: whether each position is removed.
pub open spec fn x9_removed(cs: Seq<BidiClass>) -> Seq<bool> {
    Seq::new(cs.len(), |p: int| is_removed_by_x9(cs[p]))
}

/// The levels after X1-X9: the explicit level, 255 where X9 removes.
pub open spec fn x9_levels(cs: Seq<BidiClass>, para: u8) -> Seq<u8> {
    let e = explicit_levels(cs, para);
    Seq::new(cs.len(), |p: int| if is_removed_by_x9(cs[p]) { REMOVED_LEVEL } else { e[p] })
}

/// The types after X1-X9: the overridden type, BN where X9 removes.
pub open spec fn x9_classes(cs: Seq<BidiClass>, para: u8) -> Seq<BidiClass> {
    let xc = spec_explicit(cs, Seq::new(cs.len(), |_i: int| para), para).0;
    Seq::new(cs.len(), |p: int| if is_removed_by_x9(cs[p]) { BidiClass::BN } else { xc[p] })
}

/// Whether position `p` lies in one of the first `k` sequences.
pub open spec fn covered(sv: Seq<(Seq<usize>, u8, BidiClass, BidiClass)>, k: int, p: int) -> bool {
    exists|s: int, j: int| 0 <= s < k && 0 <= j < sv[s].0.len() && sv[s].0[j] as int == p
}

/// The sequence and the place in it of position `p`.
pub open spec fn locate(sv: Seq<(Seq<usize>, u8, BidiClass, BidiClass)>, p: int) -> (int, int) {
    choose|s: int, j: int| 0 <= s < sv.len() && 0 <= j < sv[s].0.len() && sv[s].0[j] as int == p
}

/// W1-W7, N0 (when the characters are known) and N1-N2 on one isolating
/// run sequence whose positions have the types `xc`: the resolved type at
/// each place of the sequence.
pub open spec fn sequence_types(xc: Seq<BidiClass>, cps: Option<Seq<char>>, sq: (Seq<usize>, u8, BidiClass, BidiClass)) -> Seq<BidiClass> {
    let sc0 = sq.0.map_values(|p: usize| xc[p as int]);
    let dir = dir_of_level(sq.1 as int);
    let sw = spec_weak(sc0, sq.2);
    let sn = match cps {
        Some(v) => spec_n0(sw, sq.0.map_values(|i: usize| v[i as int]), dir, sq.2,
            sc0.map_values(|c: BidiClass| c == BidiClass::NSM)),
        None => sw,
    };
    spec_neutral(sn, sq.2, sq.3, dir)
}

/// I1-I2 over the isolating run sequences of the paragraph: the level of
/// each position before L1.
pub open spec fn implicit_levels(cs: Seq<BidiClass>, cps: Option<Seq<char>>, para: u8) -> Seq<u8> {
    let lx = x9_levels(cs, para);
    let xc = x9_classes(cs, para);
    let sv = isolating_run_sequences(cs, lx, x9_removed(cs), para);
    Seq::new(cs.len(), |p: int|
        if covered(sv, sv.len() as int, p) {
            let (s, j) = locate(sv, p);
            implicit_level(lx[p], sequence_types(xc, cps, sv[s])[j])
        } else {
            lx[p]
        })
}

/// The levels of a paragraph of types `cs` (and characters `cps`, which
/// bracket pairing needs; without them no brackets pair): P2-P3, X1-X10,
/// W1-W7, N0-N2, I1-I2, then L1; 255 where X9 removes.
pub open spec fn resolved_levels(cs: Seq<BidiClass>, cps: Option<Seq<char>>, paragraph_override: Option<u8>) -> Seq<u8> {
    let para = para_for(cs, paragraph_override);
    let lm = implicit_levels(cs, cps, para);
    Seq::new(cs.len(), |p: int| if is_removed_by_x9(cs[p]) { REMOVED_LEVEL } else { l1_level(cs, lm, para, p) })
}

/// Whether no character of `cs` takes part in bracket pairing.
pub open spec fn has_no_brackets(cs: Seq<char>) -> bool {
    forall|q: int| 0 <= q < cs.len() ==> !is_bracket_char(#[trigger] cs[q])
}

/// The characters as plain values, when there are any.
pub open spec fn chars_view(cps: Option<&[char]>) -> Option<Seq<char>> {
    match cps {
        Some(v) => Some(v@),
        None => None,
    }
}

proof fn lemma_locate(seqs: Seq<IsolatingRunSequence>, levels: Seq<u8>, removed: Seq<bool>, para: u8, s: int, j: int)
    requires
        valid_sequences(seqs, levels, removed, para),
        0 <= s < seqs.len(),
        0 <= j < seqs[s].indices@.len(),
    ensures
        locate(seqs_view(seqs), seqs[s].indices@[j] as int) == (s, j),
{
    let sv = seqs_view(seqs);
    let p = seqs[s].indices@[j] as int;
    assert(sv[s].0[j] as int == p);
    let (s2, j2) = locate(sv, p);
    assert(sv[s2].0 == seqs[s2].indices@);
    if s2 != s {
        assert(seqs[s2].indices@[j2] != seqs[s].indices@[j]);
    } else if j2 != j {
        let ix = seqs[s].indices@;
        assert(increasing_below(ix, levels.len() as int));
        if j2 < j {
            assert(ix[j2] < ix[j]);
        } else {
            assert(ix[j] < ix[j2]);
        }
    }
}

fn gather_classes(classes: &Vec<BidiClass>, indices: &Vec<usize>) -> (sc: Vec<BidiClass>)
    requires
        forall|j: int| 0 <= j < indices@.len() ==> (#[trigger] indices@[j]) < classes@.len(),
    ensures
        sc@.len() == indices@.len(),
        forall|j: int| 0 <= j < indices@.len() ==> #[trigger] sc@[j] == classes@[indices@[j] as int],
{
    let mut sc: Vec<BidiClass> = Vec::new();
    let mut j: usize = 0;
    while j < indices.len()
        invariant
            j <= indices@.len(),
            forall|k: int| 0 <= k < indices@.len() ==> (#[trigger] indices@[k]) < classes@.len(),
            sc@.len() == j,
            forall|k: int| 0 <= k < j ==> #[trigger] sc@[k] == classes@[indices@[k] as int],
        decreases indices@.len() - j,
    {
        sc.push(classes[indices[j]]);
        j += 1;
    }
    sc
}

fn nsm_flags(sc: &Vec<BidiClass>) -> (f: Vec<bool>)
    ensures
        f@.len() == sc@.len(),
        forall|j: int| 0 <= j < sc@.len() ==> #[trigger] f@[j] == (sc@[j] == BidiClass::NSM),
{
    let mut f: Vec<bool> = Vec::new();
    let mut j: usize = 0;
    while j < sc.len()
        invariant
            j <= sc@.len(),
            f@.len() == j,
            forall|k: int| 0 <= k < j ==> #[trigger] f@[k] == (sc@[k] == BidiClass::NSM),
        decreases sc@.len() - j,
    {
        f.push(sc[j] == BidiClass::NSM);
        j += 1;
    }
    f
}

fn scatter_classes(classes: &mut Vec<BidiClass>, indices: &Vec<usize>, sc: &Vec<BidiClass>)
    requires
        sc@.len() == indices@.len(),
        forall|j: int| 0 <= j < indices@.len() ==> (#[trigger] indices@[j]) < old(classes)@.len(),
    ensures
        final(classes)@.len() == old(classes)@.len(),
        forall|p: int| 0 <= p < old(classes)@.len() && !indices@.contains(p as usize)
            ==> #[trigger] final(classes)@[p] == old(classes)@[p],
{
    let ghost c0 = classes@;
    let mut j: usize = 0;
    while j < indices.len()
        invariant
            j <= indices@.len(),
            sc@.len() == indices@.len(),
            classes@.len() == old(classes)@.len(),
            c0 == old(classes)@,
            forall|k: int| 0 <= k < indices@.len() ==> (#[trigger] indices@[k]) < classes@.len(),
            forall|p: int| 0 <= p < c0.len() && !indices@.take(j as int).contains(p as usize)
                ==> #[trigger] classes@[p] == c0[p],
        decreases indices@.len() - j,
    {
        classes.set(indices[j], sc[j]);
        j += 1;
        proof {
            assert forall|p: int| 0 <= p < c0.len() && !indices@.take(j as int).contains(p as usize)
                implies #[trigger] classes@[p] == c0[p] by {
                assert(indices@.take(j as int)[j - 1] == indices@[j - 1]);
                let prev = indices@.take(j - 1);
                if prev.contains(p as usize) {
                    let w = choose|w: int| 0 <= w < prev.len() && #[trigger] prev[w] == p as usize;
                    assert(indices@.take(j as int)[w] == p as usize);
                }
            }
        }
    }
    proof {
        assert(indices@.take(indices@.len() as int) == indices@);
    }
}

proof fn lemma_implicit_range(l: u8, c: BidiClass)
    requires
        l <= MAX_DEPTH,
    ensures
        l <= implicit_level(l, c) <= l + 2,
{
}

fn resolve_inner(original_classes: &[BidiClass], cps: Option<&[char]>, paragraph_override: Option<u8>) -> (info: BidiInfo)
    requires
        match paragraph_override {
            Some(l) => l <= 1,
            None => true,
        },
        match cps {
            Some(v) => v@.len() == original_classes@.len(),
            None => true,
        },
    ensures
        bidi_info_ok(original_classes@, paragraph_override, info),
        info.paragraph_level <= 1,
        info.levels@ == resolved_levels(original_classes@, chars_view(cps), paragraph_override),
        match cps {
            Some(v) => has_no_brackets(v@) ==> info.levels@ == resolved_levels(original_classes@, None, paragraph_override),
            None => true,
        },
        paragraph_override is None && is_ltr_line(info.levels@) ==> info.paragraph_level == 0,
{
    let n = original_classes.len();
    let ghost cs = original_classes@;
    let para_level = match paragraph_override {
        Some(lev) => lev,
        None => determine_paragraph_level(original_classes),
    };
    let mut classes: Vec<BidiClass> = Vec::new();
    let mut levels: Vec<u8> = Vec::new();
    let mut i: usize = 0;
    while i < n
        invariant
            n == cs.len(),
            cs == original_classes@,
            i <= n,
            classes@ == cs.take(i as int),
            levels@ == Seq::new(i as nat, |_k: int| para_level),
        decreases n - i,
    {
        classes.push(original_classes[i]);
        levels.push(para_level);
        i += 1;
    }
    proof {
        assert(classes@ == cs);
        assert(levels@ == Seq::new(cs.len(), |_k: int| para_level));
    }
    let ghost lv0 = levels@;
    apply_explicit_levels(classes.as_mut_slice(), levels.as_mut_slice(), para_level);
    let ghost e = levels@;
    let ghost ce = classes@;
    proof {
        assert(lv0 == Seq::new(cs.len(), |_i: int| para_level));
        assert(e == explicit_levels(cs, para_level));
        assert(ce == spec_explicit(cs, Seq::new(cs.len(), |_i: int| para_level), para_level).0);
    }
    let removed = apply_x9(original_classes, classes.as_mut_slice(), levels.as_mut_slice());
    let ghost lx = levels@;
    let ghost cx = classes@;
    proof {
        let xl = x9_levels(cs, para_level);
        let xc = x9_classes(cs, para_level);
        assert forall|p: int| 0 <= p < n implies #[trigger] lx[p] == xl[p] by {
            assert(removed@[p] == is_removed_by_x9(cs[p]));
        }
        assert forall|p: int| 0 <= p < n implies #[trigger] cx[p] == xc[p] by {
            assert(removed@[p] == is_removed_by_x9(cs[p]));
        }
        assert(lx =~= xl);
        assert(cx =~= xc);
        assert(removed@ =~= x9_removed(cs));
    }
    let sequences = build_isolating_run_sequences(original_classes, &classes, &levels, &removed, para_level);
    let ghost seqs = sequences@;
    let ghost sv = seqs_view(seqs);
    let mut k: usize = 0;
    while k < sequences.len()
        invariant
            n == cs.len(),
            cs == original_classes@,
            seqs == sequences@,
            k <= seqs.len(),
            classes@.len() == n,
            levels@.len() == n,
            removed@.len() == n,
            lx.len() == n,
            e.len() == n,
            valid_sequences(seqs, lx, removed@, para_level),
            match cps {
                Some(v) => v@.len() == n,
                None => true,
            },
            forall|p: int| 0 <= p < n ==> (#[trigger] removed@[p]) == is_removed_by_x9(cs[p]),
            forall|p: int| 0 <= p < n ==> #[trigger] e[p] <= MAX_DEPTH,
            forall|p: int| 0 <= p < n ==> (#[trigger] lx[p]) == (if removed@[p] { REMOVED_LEVEL } else { e[p] }),
            forall|p: int| 0 <= p < n && removed@[p] ==> #[trigger] levels@[p] == REMOVED_LEVEL,
            forall|p: int| 0 <= p < n && !removed@[p] ==> e[p] <= #[trigger] levels@[p] <= e[p] + 2,
            forall|s: int, a: int| k <= s < seqs.len() && 0 <= a < seqs[s].indices@.len()
                ==> #[trigger] levels@[seqs[s].indices@[a] as int] == lx[seqs[s].indices@[a] as int],
            sv == seqs_view(seqs),
            cx.len() == n,
            forall|p: int| 0 <= p < n && !covered(sv, k as int, p) ==> #[trigger] classes@[p] == cx[p],
            forall|s: int| 0 <= s < k && (match cps { Some(v) => has_no_brackets(v@), None => true })
                ==> #[trigger] sequence_types(cx, chars_view(cps), sv[s]) == sequence_types(cx, None, sv[s]),
            forall|p: int| 0 <= p < n ==> #[trigger] levels@[p] == (if covered(sv, k as int, p) {
                implicit_level(lx[p], sequence_types(cx, chars_view(cps), sv[locate(sv, p).0])[locate(sv, p).1])
            } else {
                lx[p]
            }),
        decreases seqs.len() - k,
    {
        let seq = &sequences[k];
        let indices = &seq.indices;
        let sos = seq.sos;
        let eos = seq.eos;
        let embed_dir = if seq.level % 2 == 0 { BidiClass::L } else { BidiClass::R };
        proof {
            assert(seqs[k as int] == *seq);
            assert forall|j: int| 0 <= j < indices@.len() implies (#[trigger] indices@[j]) < n by {
                assert(seqs[k as int].indices@[j] < n);
            }
        }
        let mut sc = gather_classes(&classes, indices);
        proof {
            let ix = indices@;
            assert(sv[k as int] == (ix, seq.level, sos, eos));
            assert forall|j: int| 0 <= j < ix.len() implies #[trigger] sc@[j] == cx[ix[j] as int] by {
                if covered(sv, k as int, ix[j] as int) {
                    let (s2, j2) = choose|s2: int, j2: int| 0 <= s2 < k && 0 <= j2 < sv[s2].0.len()
                        && sv[s2].0[j2] as int == ix[j] as int;
                    assert(seqs[s2].indices@[j2] != seqs[k as int].indices@[j]);
                }
            }
            assert(sc@ =~= ix.map_values(|p: usize| cx[p as int]));
            assert(embed_dir == dir_of_level(seq.level as int));
        }
        let ghost sc0 = sc@;
        let pre_w_nsm = nsm_flags(&sc);
        resolve_weak_types(&mut sc, sos);
        proof {
            match cps {
                Some(v) => {
                    if has_no_brackets(v@) {
                        let ix = indices@;
                        let chs = ix.map_values(|i: usize| v@[i as int]);
                        assert forall|q: int| 0 <= q < sc@.len() implies !is_bracket_char(#[trigger] chs[q]) by {
                            assert(seqs[k as int].indices@[q] == ix[q]);
                            assert(ix[q] < n);
                        }
                        lemma_n0_without_brackets(sc@, chs, embed_dir, sos,
                            sc0.map_values(|c: BidiClass| c == BidiClass::NSM));
                    }
                },
                None => {},
            }
        }
        match cps {
            Some(code_points) => {
                resolve_bracket_pairs(&mut sc, indices, code_points, embed_dir, sos, &pre_w_nsm);
            },
            None => {},
        }
        resolve_neutral_types(&mut sc, sos, eos, embed_dir);
        proof {
            assert(pre_w_nsm@ =~= sc0.map_values(|c: BidiClass| c == BidiClass::NSM));
            assert(sc@ == sequence_types(cx, chars_view(cps), sv[k as int]));
            if match cps { Some(v) => has_no_brackets(v@), None => true } {
                assert(sc@ == sequence_types(cx, None, sv[k as int]));
            }
        }
        let ghost lb = levels@;
        proof {
            assert forall|j: int| 0 <= j < indices@.len() implies {
                let l = #[trigger] lb[indices@[j] as int];
                l <= MAX_DEPTH + 2 || l == REMOVED_LEVEL
            } by {
                let p = indices@[j] as int;
                assert(seqs[k as int].indices@[j] == indices@[j]);
                assert(lb[p] == lx[p]);
                assert(!removed@[p]);
            }
        }
        resolve_implicit_levels(&sc, indices, &mut levels);
        scatter_classes(&mut classes, indices, &sc);
        proof {
            let ix = indices@;
            assert forall|p: int| 0 <= p < n && !removed@[p] implies e[p] <= #[trigger] levels@[p] <= e[p] + 2 by {
                if ix.contains(p as usize) {
                    let j = choose|j: int| 0 <= j < ix.len() && ix[j] == p as usize;
                    assert(levels@[ix[j] as int] == implicit_level(lb[ix[j] as int], sc@[j]));
                    assert(seqs[k as int].indices@[j] == ix[j]);
                    assert(lb[p] == lx[p]);
                    lemma_implicit_range(e[p], sc@[j]);
                } else {
                    assert(levels@[p] == lb[p]);
                }
            }
            assert forall|p: int| 0 <= p < n && removed@[p] implies #[trigger] levels@[p] == REMOVED_LEVEL by {
                if ix.contains(p as usize) {
                    let j = choose|j: int| 0 <= j < ix.len() && ix[j] == p as usize;
                    assert(seqs[k as int].indices@[j] == ix[j]);
                    assert(!removed@[ix[j] as int]);
                } else {
                    assert(levels@[p] == lb[p]);
                }
            }
            assert forall|p: int| 0 <= p < n && !covered(sv, k + 1, p) implies #[trigger] classes@[p] == cx[p] by {
                if ix.contains(p as usize) {
                    let j = choose|j: int| 0 <= j < ix.len() && ix[j] == p as usize;
                    assert(sv[k as int].0[j] as int == p);
                }
                if covered(sv, k as int, p) {
                    let (s2, j2) = choose|s2: int, j2: int| 0 <= s2 < k && 0 <= j2 < sv[s2].0.len()
                        && sv[s2].0[j2] as int == p;
                    assert(sv[s2].0[j2] as int == p);
                }
            }
            {
                assert forall|p: int| 0 <= p < n implies #[trigger] levels@[p] == (if covered(sv, k + 1, p) {
                    implicit_level(lx[p], sequence_types(cx, chars_view(cps), sv[locate(sv, p).0])[locate(sv, p).1])
                } else {
                    lx[p]
                }) by {
                    if ix.contains(p as usize) {
                        let j = choose|j: int| 0 <= j < ix.len() && ix[j] == p as usize;
                        assert(sv[k as int].0[j] as int == p);
                        assert(covered(sv, k + 1, p));
                        lemma_locate(seqs, lx, removed@, para_level, k as int, j);
                        assert(seqs[k as int].indices@[j] == ix[j]);
                        assert(levels@[ix[j] as int] == implicit_level(lb[ix[j] as int], sc@[j]));
                        assert(lb[p] == lx[p]);
                    } else {
                        assert(levels@[p] == lb[p]);
                        if covered(sv, k + 1, p) {
                            let (s2, j2) = choose|s2: int, j2: int| 0 <= s2 < k + 1 && 0 <= j2 < sv[s2].0.len()
                                && sv[s2].0[j2] as int == p;
                            if s2 == k {
                                assert(ix[j2] == p as usize);
                            }
                            assert(covered(sv, k as int, p));
                        } else {
                            if covered(sv, k as int, p) {
                                let (s2, j2) = choose|s2: int, j2: int| 0 <= s2 < k && 0 <= j2 < sv[s2].0.len()
                                    && sv[s2].0[j2] as int == p;
                                assert(sv[s2].0[j2] as int == p);
                            }
                        }
                    }
                }
            }
            assert forall|s: int, a: int| k + 1 <= s < seqs.len() && 0 <= a < seqs[s].indices@.len()
                implies #[trigger] levels@[seqs[s].indices@[a] as int] == lx[seqs[s].indices@[a] as int] by {
                let q = seqs[s].indices@[a];
                if ix.contains(q) {
                    let j = choose|j: int| 0 <= j < ix.len() && ix[j] == q;
                    assert(seqs[k as int].indices@[j] == ix[j]);
                    assert(seqs[k as int].indices@[j] != seqs[s].indices@[a]);
                }
                assert(q < n);
                assert(levels@[q as int] == lb[q as int]);
            }
        }
        k += 1;
    }
    let ghost lm = levels@;
    apply_l1(original_classes, &mut levels, para_level);
    let ghost ll = levels@;
    let mut i: usize = 0;
    while i < n
        invariant
            n == cs.len(),
            cs == original_classes@,
            removed@.len() == n,
            levels@.len() == n,
            ll.len() == n,
            i <= n,
            forall|p: int| 0 <= p < n ==> (#[trigger] removed@[p]) == is_removed_by_x9(cs[p]),
            forall|p: int| 0 <= p < i ==> #[trigger] levels@[p] == (if removed@[p] { REMOVED_LEVEL } else { ll[p] }),
            forall|p: int| i <= p < n ==> #[trigger] levels@[p] == ll[p],
        decreases n - i,
    {
        if removed[i] {
            levels.set(i, REMOVED_LEVEL);
        }
        i += 1;
    }
    let reorder = compute_reorder(&levels);
    let info = BidiInfo { paragraph_level: para_level, levels, reorder };
    proof {
        let lv = info.levels@;
        assert forall|i: int| 0 <= i < cs.len() implies {
            &&& is_removed_by_x9(cs[i]) ==> #[trigger] lv[i] == REMOVED_LEVEL
            &&& (!is_removed_by_x9(cs[i]) && l1_resets(cs, i)) ==> lv[i] == para_level
            &&& (!is_removed_by_x9(cs[i]) && !l1_resets(cs, i)) ==> e[i] <= lv[i] <= e[i] + 2
        } by {
            assert(ll[i] == l1_level(cs, lm, para_level, i));
            if !removed@[i] {
                assert(e[i] <= lm[i] <= e[i] + 2);
            }
        }
        assert(para_level == para_for(cs, paragraph_override));
        if paragraph_override is None && is_ltr_line(info.levels@) {
            if exists|i: int| 0 <= i < n && !is_removed_by_x9(#[trigger] cs[i]) {
                let i = choose|i: int| 0 <= i < n && !is_removed_by_x9(#[trigger] cs[i]);
                lemma_explicit_at_least_para(cs, para_level);
                assert(e[i] >= para_level);
                assert(info.levels@[i] == 0 || info.levels@[i] == REMOVED_LEVEL);
            } else {
                lemma_p2_no_strong(cs, 0, 0);
            }
        }
        assert(lm =~= implicit_levels(cs, chars_view(cps), para_level));
        assert(info.levels@ =~= resolved_levels(cs, chars_view(cps), paragraph_override));
        if match cps { Some(v) => has_no_brackets(v@), None => true } {
            let sv2 = isolating_run_sequences(cs, x9_levels(cs, para_level), x9_removed(cs), para_level);
            assert(sv2 == sv);
            assert forall|p: int| 0 <= p < n implies #[trigger] lm[p] == implicit_levels(cs, None, para_level)[p] by {
                if covered(sv, sv.len() as int, p) {
                    let (s2, j2) = locate(sv, p);
                    assert(0 <= s2 < sv.len());
                    assert(sequence_types(cx, chars_view(cps), sv[s2]) == sequence_types(cx, None, sv[s2]));
                }
            }
            assert(lm =~= implicit_levels(cs, None, para_level));
            assert(info.levels@ =~= resolved_levels(cs, None, paragraph_override));
        }
    }
    info
}

/// Resolve a paragraph string: one level per character.
/// `paragraph_override`: `None` detects the direction (P2/P3), `Some(0)`
/// forces LTR, `Some(1)` forces RTL.
pub fn resolve(s: &str, paragraph_override: Option<u8>) -> (info: BidiInfo)
    requires
        match paragraph_override {
            Some(l) => l <= 1,
            None => true,
        },
    ensures
        bidi_info_ok(s@.map_values(|c: char| spec_bidi_class(c as u32)), paragraph_override, info),
        info.paragraph_level <= 1,
        info.levels@.len() == s@.len(),
        info.levels@ == resolved_levels(s@.map_values(|c: char| spec_bidi_class(c as u32)), Some(s@), paragraph_override),
        has_no_brackets(s@)
            ==> info.levels@ == resolved_levels(s@.map_values(|c: char| spec_bidi_class(c as u32)), None, paragraph_override),
        paragraph_override is None && is_ltr_line(info.levels@) ==> info.paragraph_level == 0,
{
    let chars = chars_of(s);
    let mut classes: Vec<BidiClass> = Vec::new();
    let mut i: usize = 0;
    while i < chars.len()
        invariant
            i <= chars@.len(),
            chars@ == s@,
            classes@ == s@.take(i as int).map_values(|c: char| spec_bidi_class(c as u32)),
        decreases chars@.len() - i,
    {
        let c = chars[i];
        classes.push(bidi_class(c as u32));
        proof {
            assert(s@.take(i + 1) == s@.take(i as int).push(c));
        }
        i += 1;
        proof {
            assert(classes@ == s@.take(i as int).map_values(|c: char| spec_bidi_class(c as u32)));
        }
    }
    proof {
        assert(s@.take(s@.len() as int) == s@);
    }
    resolve_inner(classes.as_slice(), Some(chars.as_slice()), paragraph_override)
}

/// Resolve a sequence of bidi classes (no characters, so N0 does not pair
/// brackets).
pub fn resolve_classes(classes: &[BidiClass], paragraph_override: Option<u8>) -> (info: BidiInfo)
    requires
        match paragraph_override {
            Some(l) => l <= 1,
            None => true,
        },
    ensures
        bidi_info_ok(classes@, paragraph_override, info),
        info.paragraph_level <= 1,
        info.levels@ == resolved_levels(classes@, None, paragraph_override),
        paragraph_override is None && is_ltr_line(info.levels@) ==> info.paragraph_level == 0,
{
    resolve_inner(classes, None, paragraph_override)
}

} // verus!

//! X1-X9: explicit embeddings, overrides and isolates.
use vstd::prelude::*;

use crate::data::bidi_class::BidiClass;
use super::{MAX_DEPTH, REMOVED_LEVEL, fsi_level, is_isolate_initiator, determine_paragraph_level_for_fsi};

verus! {

/// Directional override status of an embedding (BD7).
#[derive(Clone, Copy, PartialEq, Eq, Structural)]
pub enum Override {
    Neutral,
    LTR,
    RTL,
}

/// One entry of the directional status stack (X1).
#[derive(Clone, Copy, PartialEq, Eq, Structural)]
pub struct DirectionalStatus {
    pub level: u8,
    pub override_status: Override,
    pub isolate_status: bool,
}

/// The least odd level above `l`.
pub open spec fn next_odd(l: u8) -> int {
    if l % 2 == 0 { l + 1 } else { l + 2 }
}

/// The least even level above `l`.
pub open spec fn next_even(l: u8) -> int {
    if l % 2 == 0 { l + 2 } else { l + 1 }
}

/// X6: the class that an override status imposes on `c`.
pub open spec fn overridden(c: BidiClass, ovr: Override) -> BidiClass {
    match ovr {
        Override::LTR => BidiClass::L,
        Override::RTL => BidiClass::R,
        Override::Neutral => c,
    }
}

/// X6a: pop the stack down to, and including, the last isolate entry,
/// never popping the bottom entry.
pub open spec fn pop_isolate(s: Seq<DirectionalStatus>) -> Seq<DirectionalStatus>
    decreases s.len(),
{
    if s.len() <= 1 {
        s
    } else if s.last().isolate_status {
        s.drop_last()
    } else {
        pop_isolate(s.drop_last())
    }
}

/// State of the X1-X8 pass: the stack, the overflow isolate, overflow
/// embedding and valid isolate counts, the classes and the levels.
pub type XState = (Seq<DirectionalStatus>, int, int, int, Seq<BidiClass>, Seq<u8>);

/// Whether a new embedding at `nl` is valid (X2-X5c).
pub open spec fn can_push(nl: int, oic: int, oec: int) -> bool {
    nl <= MAX_DEPTH && oic == 0 && oec == 0
}

/// One step of X2-X8 on position `i`, whose input class is `orig[i]`.
pub open spec fn x_step(st: XState, orig: Seq<BidiClass>, para: u8, i: int) -> XState {
    let (stack, oic, oec, vic, cls, lvs) = st;
    let cur = stack.last();
    let c = orig[i];
    if c == BidiClass::RLE || c == BidiClass::LRE || c == BidiClass::RLO || c == BidiClass::LRO {
        let nl = if c == BidiClass::RLE || c == BidiClass::RLO { next_odd(cur.level) } else { next_even(cur.level) };
        let ovr = if c == BidiClass::RLO { Override::RTL } else if c == BidiClass::LRO { Override::LTR } else { Override::Neutral };
        if can_push(nl, oic, oec) {
            (stack.push(DirectionalStatus { level: nl as u8, override_status: ovr, isolate_status: false }), oic, oec, vic, cls, lvs)
        } else if oic == 0 {
            (stack, oic, oec + 1, vic, cls, lvs)
        } else {
            st
        }
    } else if is_isolate_initiator(c) {
        let lvs2 = lvs.update(i, cur.level);
        let cls2 = cls.update(i, overridden(cls[i], cur.override_status));
        let rtl = c == BidiClass::RLI || (c == BidiClass::FSI && fsi_level(orig, i + 1, 1) == 1);
        let nl = if rtl { next_odd(cur.level) } else { next_even(cur.level) };
        if can_push(nl, oic, oec) {
            (stack.push(DirectionalStatus { level: nl as u8, override_status: Override::Neutral, isolate_status: true }), oic, oec, vic + 1, cls2, lvs2)
        } else {
            (stack, oic + 1, oec, vic, cls2, lvs2)
        }
    } else if c == BidiClass::PDI {
        let (s2, oic2, oec2, vic2) = if oic > 0 {
            (stack, oic - 1, oec, vic)
        } else if vic > 0 {
            (pop_isolate(stack), oic, 0, vic - 1)
        } else {
            (stack, oic, oec, vic)
        };
        let c2 = s2.last();
        (s2, oic2, oec2, vic2, cls.update(i, overridden(cls[i], c2.override_status)), lvs.update(i, c2.level))
    } else if c == BidiClass::PDF {
        if oic > 0 {
            st
        } else if oec > 0 {
            (stack, oic, oec - 1, vic, cls, lvs)
        } else if stack.len() >= 2 && !stack.last().isolate_status {
            (stack.drop_last(), oic, oec, vic, cls, lvs)
        } else {
            st
        }
    } else if c == BidiClass::B {
        (stack, oic, oec, vic, cls, lvs.update(i, para))
    } else {
        (stack, oic, oec, vic, cls.update(i, overridden(cls[i], cur.override_status)), lvs.update(i, cur.level))
    }
}

/// The X1-X8 state after the first `k` positions, starting from levels `lv0`.
pub open spec fn x_run(orig: Seq<BidiClass>, lv0: Seq<u8>, para: u8, k: int) -> XState
    decreases k,
{
    if k <= 0 {
        (seq![DirectionalStatus { level: para, override_status: Override::Neutral, isolate_status: false }], 0, 0, 0, orig, lv0)
    } else {
        x_step(x_run(orig, lv0, para, k - 1), orig, para, k - 1)
    }
}

/// The classes and levels that X1-X8 give.
pub open spec fn spec_explicit(orig: Seq<BidiClass>, lv0: Seq<u8>, para: u8) -> (Seq<BidiClass>, Seq<u8>) {
    let st = x_run(orig, lv0, para, orig.len() as int);
    (st.4, st.5)
}

fn next_odd_level(l: u8) -> (r: u8)
    requires
        l <= MAX_DEPTH,
    ensures
        r == next_odd(l),
{
    if l % 2 == 0 { l + 1 } else { l + 2 }
}

fn next_even_level(l: u8) -> (r: u8)
    requires
        l <= MAX_DEPTH,
    ensures
        r == next_even(l),
{
    if l % 2 == 0 { l + 2 } else { l + 1 }
}

fn apply_override(classes: &mut [BidiClass], i: usize, ovr: Override)
    requires
        i < old(classes)@.len(),
    ensures
        final(classes)@ == old(classes)@.update(i as int, overridden(old(classes)@[i as int], ovr)),
{
    match ovr {
        Override::LTR => {
            classes[i] = BidiClass::L;
        },
        Override::RTL => {
            classes[i] = BidiClass::R;
        },
        Override::Neutral => {},
    }
}

fn pop_to_isolate(stack: &mut Vec<DirectionalStatus>)
    ensures
        final(stack)@ == pop_isolate(old(stack)@),
{
    while stack.len() > 1
        invariant
            pop_isolate(stack@) == pop_isolate(old(stack)@),
        decreases stack.len(),
    {
        if stack[stack.len() - 1].isolate_status {
            stack.pop();
            return;
        }
        stack.pop();
    }
}

/// Stack entries all have levels of at most `MAX_DEPTH`.
pub open spec fn stack_ok(s: Seq<DirectionalStatus>) -> bool {
    s.len() >= 1 && forall|k: int| 0 <= k < s.len() ==> (#[trigger] s[k]).level <= MAX_DEPTH
}

proof fn lemma_pop_isolate_ok(s: Seq<DirectionalStatus>)
    requires
        stack_ok(s),
    ensures
        stack_ok(pop_isolate(s)),
    decreases s.len(),
{
    if s.len() > 1 && !s.last().isolate_status {
        lemma_pop_isolate_ok(s.drop_last());
    }
}

/// Stack entries all have levels of at least `para`.
pub open spec fn stack_at_least(s: Seq<DirectionalStatus>, para: u8) -> bool {
    s.len() >= 1 && forall|k: int| 0 <= k < s.len() ==> (#[trigger] s[k]).level >= para
}

proof fn lemma_pop_isolate_at_least(s: Seq<DirectionalStatus>, para: u8)
    requires
        stack_at_least(s, para),
    ensures
        stack_at_least(pop_isolate(s), para),
    decreases s.len(),
{
    if s.len() > 1 {
        let d = s.drop_last();
        assert(stack_at_least(d, para)) by {
            assert forall|k: int| 0 <= k < d.len() implies (#[trigger] d[k]).level >= para by {
                assert(d[k] == s[k]);
            }
        }
        if !s.last().isolate_status {
            lemma_pop_isolate_at_least(d, para);
        }
    }
}

pub proof fn lemma_x_run_at_least(orig: Seq<BidiClass>, lv0: Seq<u8>, para: u8, k: int)
    requires
        0 <= k <= orig.len(),
        lv0.len() == orig.len(),
        forall|j: int| 0 <= j < lv0.len() ==> lv0[j] >= para,
    ensures
        stack_at_least(x_run(orig, lv0, para, k).0, para),
        x_run(orig, lv0, para, k).5.len() == lv0.len(),
        forall|j: int| 0 <= j < lv0.len() ==> #[trigger] x_run(orig, lv0, para, k).5[j] >= para,
    decreases k,
{
    if k > 0 {
        lemma_x_run_at_least(orig, lv0, para, k - 1);
        let st = x_run(orig, lv0, para, k - 1);
        let stack = st.0;
        let cur = stack.last();
        assert(cur.level >= para);
        let c = orig[k - 1];
        if c == BidiClass::PDI && st.1 <= 0 && st.3 > 0 {
            lemma_pop_isolate_at_least(stack, para);
        }
        if c == BidiClass::PDF && st.1 <= 0 && st.2 <= 0 && stack.len() >= 2 && !stack.last().isolate_status {
            let d = stack.drop_last();
            assert forall|q: int| 0 <= q < d.len() implies (#[trigger] d[q]).level >= para by {
                assert(d[q] == stack[q]);
            }
        }
        let nst = x_run(orig, lv0, para, k);
        assert forall|q: int| 0 <= q < nst.0.len() implies (#[trigger] nst.0[q]).level >= para by {
            if q < stack.len() && !(c == BidiClass::PDI && st.1 <= 0 && st.3 > 0) {
                assert(nst.0[q] == stack[q]);
            }
        }
    }
}

/// X1-X8: assign explicit embedding levels, apply overrides, and match
/// isolates.
pub fn apply_explicit_levels(classes: &mut [BidiClass], levels: &mut [u8], para_level: u8)
    requires
        para_level <= MAX_DEPTH,
        old(levels)@.len() == old(classes)@.len(),
    ensures
        (final(classes)@, final(levels)@) == spec_explicit(old(classes)@, old(levels)@, para_level),
        final(classes)@.len() == old(classes)@.len(),
        final(levels)@.len() == old(levels)@.len(),
        (forall|j: int| 0 <= j < old(levels)@.len() ==> old(levels)@[j] <= MAX_DEPTH)
            ==> (forall|j: int| 0 <= j < final(levels)@.len() ==> final(levels)@[j] <= MAX_DEPTH),
{
    let n = classes.len();
    let ghost orig = classes@;
    let ghost lv0 = levels@;
    let mut stack: Vec<DirectionalStatus> = Vec::new();
    stack.push(DirectionalStatus {
        level: para_level,
        override_status: Override::Neutral,
        isolate_status: false,
    });
    let mut overflow_isolate_count: usize = 0;
    let mut overflow_embedding_count: usize = 0;
    let mut valid_isolate_count: usize = 0;
    let mut i: usize = 0;
    while i < n
        invariant
            n == orig.len(),
            0 <= i <= n,
            classes@.len() == n,
            levels@.len() == n,
            para_level <= MAX_DEPTH,
            stack_ok(stack@),
            overflow_isolate_count <= i,
            overflow_embedding_count <= i,
            valid_isolate_count <= i,
            forall|j: int| i <= j < n ==> classes@[j] == orig[j],
            (forall|j: int| 0 <= j < n ==> lv0[j] <= MAX_DEPTH)
                ==> (forall|j: int| 0 <= j < n ==> levels@[j] <= MAX_DEPTH),
            x_run(orig, lv0, para_level, i as int) == (stack@, overflow_isolate_count as int,
                overflow_embedding_count as int, valid_isolate_count as int, classes@, levels@),
        decreases n - i,
    {
        let bc = classes[i];
        let current = stack[stack.len() - 1];
        assert(orig[i as int] == bc);
        proof {
            assert(stack@.last() == current);
            assert(current.level <= MAX_DEPTH);
        }
        match bc {
            BidiClass::RLE | BidiClass::LRE | BidiClass::RLO | BidiClass::LRO => {
                let new_level = match bc {
                    BidiClass::RLE | BidiClass::RLO => next_odd_level(current.level),
                    _ => next_even_level(current.level),
                };
                let ovr = match bc {
                    BidiClass::RLO => Override::RTL,
                    BidiClass::LRO => Override::LTR,
                    _ => Override::Neutral,
                };
                if new_level <= MAX_DEPTH && overflow_isolate_count == 0 && overflow_embedding_count == 0 {
                    stack.push(DirectionalStatus { level: new_level, override_status: ovr, isolate_status: false });
                } else if overflow_isolate_count == 0 {
                    overflow_embedding_count += 1;
                }
            },
            BidiClass::RLI | BidiClass::LRI | BidiClass::FSI => {
                levels[i] = current.level;
                apply_override(classes, i, current.override_status);
                let rtl = match bc {
                    BidiClass::RLI => true,
                    BidiClass::FSI => determine_paragraph_level_for_fsi(classes, i + 1) == 1,
                    _ => false,
                };
                proof {
                    assert forall|j: int| i + 1 <= j < n implies classes@[j] == orig[j] by {}
                    assert(classes@.len() == orig.len());
                    if bc == BidiClass::FSI {
                        lemma_fsi_level_same(classes@, orig, i as int + 1, 1);
                    }
                }
                let new_level = if rtl { next_odd_level(current.level) } else { next_even_level(current.level) };
                if new_level <= MAX_DEPTH && overflow_isolate_count == 0 && overflow_embedding_count == 0 {
                    valid_isolate_count += 1;
                    stack.push(DirectionalStatus { level: new_level, override_status: Override::Neutral, isolate_status: true });
                } else {
                    overflow_isolate_count += 1;
                }
            },
            BidiClass::PDI => {
                if overflow_isolate_count > 0 {
                    overflow_isolate_count -= 1;
                } else if valid_isolate_count > 0 {
                    overflow_embedding_count = 0;
                    proof { lemma_pop_isolate_ok(stack@); }
                    pop_to_isolate(&mut stack);
                    valid_isolate_count -= 1;
                }
                let cur = stack[stack.len() - 1];
                levels[i] = cur.level;
                apply_override(classes, i, cur.override_status);
            },
            BidiClass::PDF => {
                if overflow_isolate_count > 0 {
                } else if overflow_embedding_count > 0 {
                    overflow_embedding_count -= 1;
                } else if stack.len() >= 2 && !stack[stack.len() - 1].isolate_status {
                    stack.pop();
                }
            },
            BidiClass::B => {
                levels[i] = para_level;
            },
            _ => {
                levels[i] = current.level;
                apply_override(classes, i, current.override_status);
            },
        }
        i += 1;
    }
}

proof fn lemma_fsi_level_same(a: Seq<BidiClass>, b: Seq<BidiClass>, i: int, d: int)
    requires
        a.len() == b.len(),
        forall|j: int| i <= j < a.len() ==> a[j] == b[j],
    ensures
        fsi_level(a, i, d) == fsi_level(b, i, d),
    decreases a.len() - i,
{
    if 0 <= i < a.len() {
        lemma_fsi_level_same(a, b, i + 1, d + 1);
        lemma_fsi_level_same(a, b, i + 1, d - 1);
        lemma_fsi_level_same(a, b, i + 1, d);
    }
}

/// X9: characters of class RLE, LRE, RLO, LRO, PDF or BN (in the input)
/// are removed.
pub open spec fn is_removed_by_x9(c: BidiClass) -> bool {
    c == BidiClass::RLE || c == BidiClass::LRE || c == BidiClass::RLO || c == BidiClass::LRO
        || c == BidiClass::PDF || c == BidiClass::BN
}

/// X9: mark removed characters, give them the removed level and class BN.
pub fn apply_x9(original_classes: &[BidiClass], classes: &mut [BidiClass], levels: &mut [u8]) -> (removed: Vec<bool>)
    requires
        old(classes)@.len() == original_classes@.len(),
        old(levels)@.len() == original_classes@.len(),
    ensures
        removed@.len() == original_classes@.len(),
        final(classes)@.len() == original_classes@.len(),
        final(levels)@.len() == original_classes@.len(),
        forall|i: int| 0 <= i < original_classes@.len() ==> {
            &&& removed@[i] == is_removed_by_x9(original_classes@[i])
            &&& final(classes)@[i] == (if removed@[i] { BidiClass::BN } else { old(classes)@[i] })
            &&& final(levels)@[i] == (if removed@[i] { REMOVED_LEVEL } else { old(levels)@[i] })
        },
{
    let n = classes.len();
    let mut removed: Vec<bool> = Vec::new();
    let mut i: usize = 0;
    while i < n
        invariant
            n == original_classes@.len(),
            classes@.len() == n,
            levels@.len() == n,
            i <= n,
            removed@.len() == i,
            forall|j: int| 0 <= j < i ==> {
                &&& removed@[j] == is_removed_by_x9(original_classes@[j])
                &&& classes@[j] == (if removed@[j] { BidiClass::BN } else { old(classes)@[j] })
                &&& levels@[j] == (if removed@[j] { REMOVED_LEVEL } else { old(levels)@[j] })
            },
            forall|j: int| i <= j < n ==> classes@[j] == old(classes)@[j] && levels@[j] == old(levels)@[j],
        decreases n - i,
    {
        match original_classes[i] {
            BidiClass::RLE | BidiClass::LRE | BidiClass::RLO | BidiClass::LRO | BidiClass::PDF | BidiClass::BN => {
                removed.push(true);
                levels[i] = REMOVED_LEVEL;
                classes[i] = BidiClass::BN;
            },
            _ => {
                removed.push(false);
            },
        }
        i += 1;
    }
    removed
}


/// Whether `c` is an explicit formatting character (embedding, override,
/// isolate or their terminators).
pub open spec fn is_explicit_control(c: BidiClass) -> bool {
    c == BidiClass::RLE || c == BidiClass::LRE || c == BidiClass::RLO || c == BidiClass::LRO
        || c == BidiClass::PDF || is_isolate_initiator(c) || c == BidiClass::PDI
}

/// The level that an embedding or override initiator opens above `l`.
pub open spec fn opened_level(c: BidiClass, l: u8) -> int {
    if c == BidiClass::RLE || c == BidiClass::RLO { next_odd(l) } else { next_even(l) }
}

/// The override status that an embedding or override initiator opens.
pub open spec fn opened_override(c: BidiClass) -> Override {
    if c == BidiClass::RLO { Override::RTL } else if c == BidiClass::LRO { Override::LTR } else { Override::Neutral }
}

#[verifier::spinoff_prover]
proof fn lemma_x_run_embedded(orig: Seq<BidiClass>, lv0: Seq<u8>, para: u8, k: int)
    requires
        1 <= k <= orig.len(),
        lv0.len() == orig.len(),
        orig[0] == BidiClass::RLE || orig[0] == BidiClass::LRE || orig[0] == BidiClass::RLO || orig[0] == BidiClass::LRO,
        opened_level(orig[0], para) <= MAX_DEPTH,
        forall|i: int| 1 <= i < orig.len() ==> !is_explicit_control(#[trigger] orig[i]),
    ensures
        x_run(orig, lv0, para, k).0 == seq![
            DirectionalStatus { level: para, override_status: Override::Neutral, isolate_status: false },
            DirectionalStatus { level: opened_level(orig[0], para) as u8, override_status: opened_override(orig[0]), isolate_status: false },
        ],
        x_run(orig, lv0, para, k).1 == 0,
        x_run(orig, lv0, para, k).2 == 0,
        x_run(orig, lv0, para, k).4.len() == orig.len(),
        x_run(orig, lv0, para, k).5.len() == orig.len(),
        forall|i: int| k <= i < orig.len() ==> #[trigger] x_run(orig, lv0, para, k).4[i] == orig[i],
        forall|i: int| 1 <= i < k && orig[i] != BidiClass::B ==> #[trigger] x_run(orig, lv0, para, k).5[i]
            == opened_level(orig[0], para),
        forall|i: int| 1 <= i < k && orig[i] != BidiClass::B ==> #[trigger] x_run(orig, lv0, para, k).4[i]
            == overridden(orig[i], opened_override(orig[0])),
        forall|i: int| 1 <= i < k && orig[i] == BidiClass::B ==> #[trigger] x_run(orig, lv0, para, k).5[i] == para,
    decreases k,
{
    let bottom = DirectionalStatus { level: para, override_status: Override::Neutral, isolate_status: false };
    let top = DirectionalStatus {
        level: opened_level(orig[0], para) as u8,
        override_status: opened_override(orig[0]),
        isolate_status: false,
    };
    if k > 1 {
        lemma_x_run_embedded(orig, lv0, para, k - 1);
        assert(!is_explicit_control(orig[k - 1]));
        let prev = x_run(orig, lv0, para, k - 1);
        let cur = x_run(orig, lv0, para, k);
        assert(prev.0.last() == top);
        assert(cur == x_step(prev, orig, para, k - 1));
        assert(prev.4[k - 1] == orig[k - 1]);
        assert forall|i: int| 1 <= i < k && orig[i] != BidiClass::B implies #[trigger] cur.5[i]
            == opened_level(orig[0], para) by {
            if i < k - 1 {
                assert(cur.5[i] == prev.5[i]);
            }
        }
        assert forall|i: int| 1 <= i < k && orig[i] != BidiClass::B implies #[trigger] cur.4[i]
            == overridden(orig[i], opened_override(orig[0])) by {
            if i < k - 1 {
                assert(cur.4[i] == prev.4[i]);
            }
        }
        assert forall|i: int| 1 <= i < k && orig[i] == BidiClass::B implies #[trigger] cur.5[i] == para by {
            if i < k - 1 {
                assert(cur.5[i] == prev.5[i]);
            }
        }
    } else {
        let st0 = x_run(orig, lv0, para, 0);
        assert(st0 == (seq![bottom], 0int, 0int, 0int, orig, lv0));
        assert(st0.0.last() == bottom);
        assert(can_push(opened_level(orig[0], para), 0, 0));
        assert(x_run(orig, lv0, para, 1) == x_step(st0, orig, para, 0));
        assert(seq![bottom].push(top) =~= seq![bottom, top]);
    }
}

/// X2-X5, X6, X8: in text that opens one embedding or override at its
/// start and has no other explicit formatting character, every later
/// character except a paragraph separator is at the level that the
/// embedding opens (the least odd level above the paragraph level for RLE
/// and RLO, the least even one for LRE and LRO), and an override gives
/// it the override's direction; a paragraph separator is at the paragraph
/// level.
pub proof fn lemma_single_embedding(orig: Seq<BidiClass>, lv0: Seq<u8>, para: u8, i: int)
    requires
        1 <= i < orig.len(),
        lv0.len() == orig.len(),
        orig[0] == BidiClass::RLE || orig[0] == BidiClass::LRE || orig[0] == BidiClass::RLO || orig[0] == BidiClass::LRO,
        opened_level(orig[0], para) <= MAX_DEPTH,
        forall|m: int| 1 <= m < orig.len() ==> !is_explicit_control(#[trigger] orig[m]),
    ensures
        orig[i] != BidiClass::B ==> spec_explicit(orig, lv0, para).1[i] == opened_level(orig[0], para),
        orig[i] != BidiClass::B && orig[0] == BidiClass::RLO ==> spec_explicit(orig, lv0, para).0[i] == BidiClass::R,
        orig[i] != BidiClass::B && orig[0] == BidiClass::LRO ==> spec_explicit(orig, lv0, para).0[i] == BidiClass::L,
        orig[i] != BidiClass::B && (orig[0] == BidiClass::RLE || orig[0] == BidiClass::LRE)
            ==> spec_explicit(orig, lv0, para).0[i] == orig[i],
        orig[i] == BidiClass::B ==> spec_explicit(orig, lv0, para).1[i] == para,
{
    lemma_x_run_embedded(orig, lv0, para, orig.len() as int);
    let st = x_run(orig, lv0, para, orig.len() as int);
    if orig[i] != BidiClass::B {
        assert(st.5[i] == opened_level(orig[0], para));
    } else {
        assert(st.5[i] == para);
    }
}

} // verus!

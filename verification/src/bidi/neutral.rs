//! N1-N2 (neutral types), I1-I2 (implicit levels) and L1 (level resets).
use vstd::prelude::*;

use crate::data::bidi_class::BidiClass;
use super::{REMOVED_LEVEL, MAX_DEPTH};

verus! {

/// Neutral and isolate formatting characters (NI) for N1/N2.
pub open spec fn is_ni(c: BidiClass) -> bool {
    c == BidiClass::B || c == BidiClass::S || c == BidiClass::WS || c == BidiClass::ON
        || c == BidiClass::FSI || c == BidiClass::LRI || c == BidiClass::RLI || c == BidiClass::PDI
}

/// The direction a type counts as for N1: EN and AN count as R.
pub open spec fn to_strong(c: BidiClass) -> BidiClass {
    if c == BidiClass::L {
        BidiClass::L
    } else if c == BidiClass::R || c == BidiClass::AN || c == BidiClass::EN {
        BidiClass::R
    } else {
        c
    }
}

/// Start of the run of NIs that ends just before `j` (or at `j`).
pub open spec fn ni_start(s: Seq<BidiClass>, j: int) -> int
    decreases j,
{
    if j > 0 && is_ni(s[j - 1]) { ni_start(s, j - 1) } else { j }
}

/// First position at or after `j` that is not an NI.
pub open spec fn ni_end(s: Seq<BidiClass>, j: int) -> int
    decreases s.len() - j,
{
    if 0 <= j < s.len() && is_ni(s[j]) { ni_end(s, j + 1) } else { j }
}

/// N1/N2 at position `j`: an NI takes the direction shared by the text on
/// both sides of its run (N1), or the embedding direction (N2).
pub open spec fn neutral_at(s: Seq<BidiClass>, j: int, sos: BidiClass, eos: BidiClass, e: BidiClass) -> BidiClass {
    if !is_ni(s[j]) {
        s[j]
    } else {
        let st = ni_start(s, j);
        let en = ni_end(s, j);
        let before = if st > 0 { to_strong(s[st - 1]) } else { to_strong(sos) };
        let after = if en < s.len() { to_strong(s[en]) } else { to_strong(eos) };
        if before == after && (before == BidiClass::L || before == BidiClass::R) { before } else { e }
    }
}

/// N1-N2 on a whole isolating run sequence.
pub open spec fn spec_neutral(s: Seq<BidiClass>, sos: BidiClass, eos: BidiClass, e: BidiClass) -> Seq<BidiClass> {
    Seq::new(s.len(), |j: int| neutral_at(s, j, sos, eos, e))
}

proof fn lemma_ni_run(s: Seq<BidiClass>, st: int, en: int, j: int)
    requires
        0 <= st <= j < en <= s.len(),
        st == 0 || !is_ni(s[st - 1]),
        en == s.len() || !is_ni(s[en]),
        forall|k: int| st <= k < en ==> is_ni(#[trigger] s[k]),
    ensures
        ni_start(s, j) == st,
        ni_end(s, j) == en,
{
    lemma_ni_start(s, st, j);
    lemma_ni_end(s, en, j);
}

proof fn lemma_ni_start(s: Seq<BidiClass>, st: int, j: int)
    requires
        0 <= st <= j <= s.len(),
        st == 0 || !is_ni(s[st - 1]),
        forall|k: int| st <= k < j ==> is_ni(#[trigger] s[k]),
    ensures
        ni_start(s, j) == st,
    decreases j,
{
    if j > st {
        lemma_ni_start(s, st, j - 1);
    }
}

proof fn lemma_ni_end(s: Seq<BidiClass>, en: int, j: int)
    requires
        0 <= j <= en <= s.len(),
        en == s.len() || !is_ni(s[en]),
        forall|k: int| j <= k < en ==> is_ni(#[trigger] s[k]),
    ensures
        ni_end(s, j) == en,
    decreases en - j,
{
    if j < en {
        lemma_ni_end(s, en, j + 1);
    }
}

fn is_ni_exec(c: BidiClass) -> (r: bool)
    ensures
        r == is_ni(c),
{
    match c {
        BidiClass::B | BidiClass::S | BidiClass::WS | BidiClass::ON | BidiClass::FSI | BidiClass::LRI
        | BidiClass::RLI | BidiClass::PDI => true,
        _ => false,
    }
}

fn to_strong_exec(c: BidiClass) -> (r: BidiClass)
    ensures
        r == to_strong(c),
{
    match c {
        BidiClass::L => BidiClass::L,
        BidiClass::R | BidiClass::AN | BidiClass::EN => BidiClass::R,
        _ => c,
    }
}

/// N1-N2: resolve neutral and isolate formatting types.
pub fn resolve_neutral_types(sc: &mut Vec<BidiClass>, sos: BidiClass, eos: BidiClass, embed_dir: BidiClass)
    ensures
        final(sc)@ == spec_neutral(old(sc)@, sos, eos, embed_dir),
{
    let ghost s0 = sc@;
    let n = sc.len();
    let mut i: usize = 0;
    while i < n
        invariant
            n == s0.len(),
            sc@.len() == n,
            i <= n,
            forall|j: int| 0 <= j < i ==> sc@[j] == spec_neutral(s0, sos, eos, embed_dir)[j],
            forall|j: int| i <= j < n ==> sc@[j] == s0[j],
            i < n && is_ni(s0[i as int]) ==> (i == 0 || !is_ni(s0[i - 1])),
            i > 0 && i < n && !is_ni(s0[i as int]) ==> true,
        decreases n - i,
    {
        if is_ni_exec(sc[i]) {
            let start = i;
            while i < n && is_ni_exec(sc[i])
                invariant
                    n == s0.len(),
                    sc@.len() == n,
                    start <= i <= n,
                    start < n,
                    forall|j: int| start <= j < i ==> is_ni(#[trigger] s0[j]),
                    forall|j: int| 0 <= j < start ==> sc@[j] == spec_neutral(s0, sos, eos, embed_dir)[j],
                    forall|j: int| start <= j < n ==> sc@[j] == s0[j],
                    start == 0 || !is_ni(s0[start - 1]),
                decreases n - i,
            {
                i += 1;
            }
            let before = if start > 0 { to_strong_exec(sc[start - 1]) } else { to_strong_exec(sos) };
            let after = if i < n { to_strong_exec(sc[i]) } else { to_strong_exec(eos) };
            let resolved = if before == after && (before == BidiClass::L || before == BidiClass::R) {
                before
            } else {
                embed_dir
            };
            proof {
                lemma_ni_run(s0, start as int, i as int, start as int);
                if start > 0 {
                    assert(!is_ni(s0[start - 1]));
                    assert(neutral_at(s0, start - 1, sos, eos, embed_dir) == s0[start - 1]);
                    assert(sc@[start - 1] == s0[start - 1]);
                }
            }
            let mut j = start;
            while j < i
                invariant
                    n == s0.len(),
                    sc@.len() == n,
                    start <= j <= i <= n,
                    start < n,
                    forall|k: int| start <= k < i ==> is_ni(#[trigger] s0[k]),
                    i == n || !is_ni(s0[i as int]),
                    start == 0 || !is_ni(s0[start - 1]),
                    forall|k: int| 0 <= k < start ==> sc@[k] == spec_neutral(s0, sos, eos, embed_dir)[k],
                    forall|k: int| start <= k < j ==> sc@[k] == resolved,
                    forall|k: int| j <= k < n ==> sc@[k] == s0[k],
                    resolved == neutral_at(s0, start as int, sos, eos, embed_dir),
                decreases i - j,
            {
                sc[j] = resolved;
                j += 1;
            }
            proof {
                assert forall|k: int| start <= k < i implies neutral_at(s0, k, sos, eos, embed_dir)
                    == neutral_at(s0, start as int, sos, eos, embed_dir) by {
                    lemma_ni_run(s0, start as int, i as int, k);
                    lemma_ni_run(s0, start as int, i as int, start as int);
                }
            }
        } else {
            i += 1;
        }
    }
    proof {
        assert(sc@ == spec_neutral(s0, sos, eos, embed_dir));
    }
}

/// I1/I2: the level of a character of resolved type `c` at level `level`.
pub open spec fn implicit_level(level: u8, c: BidiClass) -> u8 {
    if level == REMOVED_LEVEL {
        level
    } else if level % 2 == 0 {
        if c == BidiClass::R {
            (level + 1) as u8
        } else if c == BidiClass::AN || c == BidiClass::EN {
            (level + 2) as u8
        } else {
            level
        }
    } else {
        if c == BidiClass::L || c == BidiClass::EN || c == BidiClass::AN {
            (level + 1) as u8
        } else {
            level
        }
    }
}

/// Strictly increasing positions below `n`.
pub open spec fn increasing_below(ix: Seq<usize>, n: int) -> bool {
    &&& forall|j: int| 0 <= j < ix.len() ==> (#[trigger] ix[j]) < n
    &&& forall|a: int, b: int| 0 <= a < b < ix.len() ==> ix[a] < ix[b]
}

/// I1-I2 for one isolating run sequence: the level at `indices[j]` is
/// raised according to the resolved type `sc[j]`.
pub fn resolve_implicit_levels(sc: &Vec<BidiClass>, indices: &Vec<usize>, levels: &mut Vec<u8>)
    requires
        sc@.len() == indices@.len(),
        increasing_below(indices@, old(levels)@.len() as int),
        forall|j: int| 0 <= j < indices@.len() ==> {
            let l = #[trigger] old(levels)@[indices@[j] as int];
            l <= MAX_DEPTH + 2 || l == REMOVED_LEVEL
        },
    ensures
        final(levels)@.len() == old(levels)@.len(),
        forall|j: int| 0 <= j < indices@.len() ==> #[trigger] final(levels)@[indices@[j] as int]
            == implicit_level(old(levels)@[indices@[j] as int], sc@[j]),
        forall|p: int| 0 <= p < old(levels)@.len() && !indices@.contains(p as usize)
            ==> final(levels)@[p] == old(levels)@[p],
{
    let ghost l0 = levels@;
    let mut j: usize = 0;
    while j < indices.len()
        invariant
            sc@.len() == indices@.len(),
            increasing_below(indices@, l0.len() as int),
            levels@.len() == l0.len(),
            j <= indices@.len(),
            forall|k: int| 0 <= k < indices@.len() ==> {
                let l = #[trigger] l0[indices@[k] as int];
                l <= MAX_DEPTH + 2 || l == REMOVED_LEVEL
            },
            forall|k: int| 0 <= k < j ==> #[trigger] levels@[indices@[k] as int]
                == implicit_level(l0[indices@[k] as int], sc@[k]),
            forall|p: int| 0 <= p < l0.len() && !indices@.take(j as int).contains(p as usize)
                ==> levels@[p] == l0[p],
        decreases indices@.len() - j,
    {
        let i = indices[j];
        let ghost lv_before = levels@;
        proof {
            assert(!indices@.take(j as int).contains(i)) by {
                if indices@.take(j as int).contains(i) {
                    let k = choose|k: int| 0 <= k < j && indices@.take(j as int)[k] == i;
                    assert(indices@[k] < indices@[j as int]);
                }
            }
            assert(l0[indices@[j as int] as int] == levels@[i as int]);
        }
        let level = levels[i];
        if level != REMOVED_LEVEL {
            if level % 2 == 0 {
                match sc[j] {
                    BidiClass::R => {
                        levels[i] = level + 1;
                    },
                    BidiClass::AN | BidiClass::EN => {
                        levels[i] = level + 2;
                    },
                    _ => {},
                }
            } else {
                match sc[j] {
                    BidiClass::L | BidiClass::EN | BidiClass::AN => {
                        levels[i] = level + 1;
                    },
                    _ => {},
                }
            }
        }
        j += 1;
        proof {
            assert forall|p: int| 0 <= p < l0.len() && !indices@.take(j as int).contains(p as usize)
                implies levels@[p] == l0[p] by {
                assert(indices@.take(j as int)[j - 1] == i);
                if indices@.take(j - 1).contains(p as usize) {
                    let k = choose|k: int| 0 <= k < j - 1 && #[trigger] indices@.take(j - 1)[k] == p as usize;
                    assert(indices@.take(j as int)[k] == p as usize);
                }
                assert(p != i);
                assert(levels@[p] == lv_before[p]);
            }
            assert forall|k: int| 0 <= k < j implies #[trigger] levels@[indices@[k] as int]
                == implicit_level(l0[indices@[k] as int], sc@[k]) by {
                if k < j - 1 {
                    assert(indices@[k] < indices@[j - 1]);
                }
            }
        }
    }
    proof {
        assert(indices@.take(indices@.len() as int) == indices@);
    }
}

/// Characters that L1 resets when they end a line or precede a separator.
pub open spec fn is_l1_whitespace(c: BidiClass) -> bool {
    c == BidiClass::WS || c == BidiClass::FSI || c == BidiClass::LRI || c == BidiClass::RLI
        || c == BidiClass::PDI || c == BidiClass::BN || c == BidiClass::RLE || c == BidiClass::LRE
        || c == BidiClass::RLO || c == BidiClass::LRO || c == BidiClass::PDF
}

/// Whether every character from `k` on, up to the next segment or
/// paragraph separator or the end of the line, is L1 whitespace.
pub open spec fn l1_trailing(cs: Seq<BidiClass>, k: int) -> bool
    decreases cs.len() - k,
{
    if k >= cs.len() || k < 0 {
        true
    } else if cs[k] == BidiClass::B || cs[k] == BidiClass::S {
        true
    } else if is_l1_whitespace(cs[k]) {
        l1_trailing(cs, k + 1)
    } else {
        false
    }
}

/// L1: the level of position `i` after the reset.
pub open spec fn l1_level(cs: Seq<BidiClass>, lv: Seq<u8>, para: u8, i: int) -> u8 {
    if cs[i] == BidiClass::B || cs[i] == BidiClass::S {
        para
    } else if is_l1_whitespace(cs[i]) && l1_trailing(cs, i + 1) {
        para
    } else {
        lv[i]
    }
}

/// L1: reset separators, and whitespace before them or at the line end,
/// to the paragraph level.
pub fn apply_l1(original_classes: &[BidiClass], levels: &mut Vec<u8>, para_level: u8)
    requires
        old(levels)@.len() == original_classes@.len(),
    ensures
        final(levels)@.len() == old(levels)@.len(),
        forall|i: int| 0 <= i < original_classes@.len() ==> #[trigger] final(levels)@[i]
            == l1_level(original_classes@, old(levels)@, para_level, i),
{
    let ghost l0 = levels@;
    let ghost cs = original_classes@;
    let n = original_classes.len();
    let mut reset = true;
    let mut k: usize = n;
    while k > 0
        invariant
            n == cs.len(),
            cs == original_classes@,
            levels@.len() == n,
            k <= n,
            reset == l1_trailing(cs, k as int),
            forall|i: int| k <= i < n ==> #[trigger] levels@[i] == l1_level(cs, l0, para_level, i),
            forall|i: int| 0 <= i < k ==> levels@[i] == l0[i],
        decreases k,
    {
        let i = k - 1;
        match original_classes[i] {
            BidiClass::B | BidiClass::S => {
                levels[i] = para_level;
                reset = true;
            },
            BidiClass::WS | BidiClass::FSI | BidiClass::LRI | BidiClass::RLI | BidiClass::PDI => {
                if reset {
                    levels[i] = para_level;
                }
            },
            BidiClass::BN | BidiClass::RLE | BidiClass::LRE | BidiClass::RLO | BidiClass::LRO
            | BidiClass::PDF => {
                if reset {
                    levels[i] = para_level;
                }
            },
            _ => {
                reset = false;
            },
        }
        k = i;
    }
}


/// N1, N2: a run of neutral or isolate formatting characters between
/// two characters of the same direction (L, or R where EN and AN count as
/// R) takes that direction; between characters of different directions it
/// takes the embedding direction.
pub proof fn lemma_neutral_run(s: Seq<BidiClass>, sos: BidiClass, eos: BidiClass, e: BidiClass, a: int, b: int, k: int)
    requires
        0 <= a < k < b < s.len(),
        !is_ni(s[a]),
        !is_ni(s[b]),
        forall|m: int| a < m < b ==> is_ni(#[trigger] s[m]),
    ensures
        spec_neutral(s, sos, eos, e).len() == s.len(),
        to_strong(s[a]) == to_strong(s[b]) && (to_strong(s[a]) == BidiClass::L || to_strong(s[a]) == BidiClass::R)
            ==> spec_neutral(s, sos, eos, e)[k] == to_strong(s[a]),
        to_strong(s[a]) != to_strong(s[b]) ==> spec_neutral(s, sos, eos, e)[k] == e,
{
    lemma_ni_run(s, a + 1, b, k);
}

/// I1, I2: a character of type L ends at the lowest even level not below
/// its embedding level, R at the lowest odd one, and EN or AN at the lowest
/// even level above it.
pub proof fn lemma_implicit_level_parity(level: u8, c: BidiClass)
    requires
        level <= MAX_DEPTH + 1,
    ensures
        c == BidiClass::L ==> implicit_level(level, c) % 2 == 0 && level <= implicit_level(level, c) <= level + 1,
        c == BidiClass::R ==> implicit_level(level, c) % 2 == 1 && level <= implicit_level(level, c) <= level + 1,
        c == BidiClass::EN || c == BidiClass::AN ==> implicit_level(level, c) % 2 == 0
            && level < implicit_level(level, c) <= level + 2,
{
}

} // verus!

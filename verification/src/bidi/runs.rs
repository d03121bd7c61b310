//! X10: level runs and isolating run sequences (BD13).
use vstd::prelude::*;

use crate::data::bidi_class::BidiClass;
use super::{REMOVED_LEVEL, is_isolate_initiator};
use super::neutral::increasing_below;

verus! {

/// One isolating run sequence: the positions it covers, in order, its
/// embedding level and its start/end-of-sequence types.
pub struct IsolatingRunSequence {
    pub indices: Vec<usize>,
    pub level: u8,
    pub sos: BidiClass,
    pub eos: BidiClass,
}

/// The direction of an embedding level: L when even, R when odd.
pub open spec fn dir_of_level(l: int) -> BidiClass {
    if l % 2 == 0 { BidiClass::L } else { BidiClass::R }
}

/// Level of the last kept character before position `i`, or `para`.
pub open spec fn prev_level_from(levels: Seq<u8>, removed: Seq<bool>, i: int, para: u8) -> u8
    decreases i,
{
    if i <= 0 {
        para
    } else if !removed[i - 1] && levels[i - 1] != REMOVED_LEVEL {
        levels[i - 1]
    } else {
        prev_level_from(levels, removed, i - 1, para)
    }
}

/// Level of the first kept character at or after position `i`, or `para`.
pub open spec fn next_level_from(levels: Seq<u8>, removed: Seq<bool>, i: int, para: u8) -> u8
    decreases levels.len() - i,
{
    if i < 0 || i >= levels.len() {
        para
    } else if !removed[i] && levels[i] != REMOVED_LEVEL {
        levels[i]
    } else {
        next_level_from(levels, removed, i + 1, para)
    }
}

/// The sos of a sequence starting at `first` with level `level` (X10).
pub open spec fn sos_for(levels: Seq<u8>, removed: Seq<bool>, first: int, level: u8, para: u8) -> BidiClass {
    let p = prev_level_from(levels, removed, first, para);
    dir_of_level(if level >= p { level as int } else { p as int })
}

/// The properties that N0-I2 rely on: every sequence is a non-empty,
/// strictly increasing list of kept positions; its level is that of its
/// first position; sos follows X10; and no position is in two sequences.
pub open spec fn valid_sequences(seqs: Seq<IsolatingRunSequence>, levels: Seq<u8>, removed: Seq<bool>, para: u8) -> bool {
    &&& forall|s: int| 0 <= s < seqs.len() ==> {
        let ix = (#[trigger] seqs[s]).indices@;
        &&& ix.len() > 0
        &&& increasing_below(ix, levels.len() as int)
        &&& forall|k: int| 0 <= k < ix.len() ==> !removed[#[trigger] ix[k] as int]
        &&& seqs[s].level == levels[ix[0] as int]
        &&& seqs[s].sos == sos_for(levels, removed, ix[0] as int, seqs[s].level, para)
        &&& (seqs[s].eos == BidiClass::L || seqs[s].eos == BidiClass::R)
    }
    &&& forall|s1: int, s2: int, a: int, b: int|
        0 <= s1 < seqs.len() && 0 <= s2 < seqs.len() && s1 != s2
        && 0 <= a < seqs[s1].indices@.len() && 0 <= b < seqs[s2].indices@.len()
        ==> #[trigger] seqs[s1].indices@[a] != #[trigger] seqs[s2].indices@[b]
}

fn find_preceding_level(idx: usize, levels: &Vec<u8>, removed: &Vec<bool>, para_level: u8) -> (r: u8)
    requires
        idx <= levels@.len(),
        removed@.len() == levels@.len(),
    ensures
        r == prev_level_from(levels@, removed@, idx as int, para_level),
{
    if idx == 0 {
        return para_level;
    }
    let mut k = idx;
    while k > 0
        invariant
            k <= idx <= levels@.len(),
            removed@.len() == levels@.len(),
            prev_level_from(levels@, removed@, k as int, para_level)
                == prev_level_from(levels@, removed@, idx as int, para_level),
        decreases k,
    {
        let i = k - 1;
        if !removed[i] && levels[i] != REMOVED_LEVEL {
            return levels[i];
        }
        k = i;
    }
    para_level
}

fn find_following_level(idx: usize, levels: &Vec<u8>, removed: &Vec<bool>, para_level: u8) -> (r: u8)
    requires
        idx < levels@.len(),
        removed@.len() == levels@.len(),
    ensures
        r == next_level_from(levels@, removed@, idx + 1, para_level),
{
    let n = levels.len();
    let mut i = idx + 1;
    while i < levels.len()
        invariant
            idx + 1 <= i <= levels@.len(),
            removed@.len() == levels@.len(),
            next_level_from(levels@, removed@, i as int, para_level)
                == next_level_from(levels@, removed@, idx + 1, para_level),
        decreases levels@.len() - i,
    {
        if !removed[i] && levels[i] != REMOVED_LEVEL {
            return levels[i];
        }
        i += 1;
    }
    para_level
}

fn level_dir(l: u8) -> (c: BidiClass)
    ensures
        c == dir_of_level(l as int),
{
    if l % 2 == 0 { BidiClass::L } else { BidiClass::R }
}

/// The contents of each run.
pub open spec fn runs_view(runs: Seq<Vec<usize>>) -> Seq<Seq<usize>> {
    Seq::new(runs.len(), |r: int| runs[r]@)
}

/// Runs are non-empty, strictly increasing, ordered, made of kept
/// positions below `i`, and `ctr` maps each of their positions to its run.
pub open spec fn runs_ok(rs: Seq<Seq<usize>>, ctr: Seq<usize>, removed: Seq<bool>, i: int) -> bool {
    &&& forall|r: int| 0 <= r < rs.len() ==> (#[trigger] rs[r]).len() > 0
    &&& forall|r: int, a: int, b: int| 0 <= r < rs.len() && 0 <= a < b < rs[r].len() ==> #[trigger] rs[r][a] < #[trigger] rs[r][b]
    &&& forall|r1: int, r2: int, a: int, b: int| 0 <= r1 < r2 < rs.len() && 0 <= a < rs[r1].len() && 0 <= b < rs[r2].len()
        ==> #[trigger] rs[r1][a] < #[trigger] rs[r2][b]
    &&& forall|r: int, a: int| 0 <= r < rs.len() && 0 <= a < rs[r].len() ==> {
        &&& #[trigger] rs[r][a] < i
        &&& !removed[rs[r][a] as int]
        &&& ctr[rs[r][a] as int] == r
    }
}

/// Every kept position below `n` lies in the run that `ctr` names.
pub open spec fn runs_cover(rs: Seq<Seq<usize>>, ctr: Seq<usize>, removed: Seq<bool>, n: int) -> bool {
    forall|p: int| 0 <= p < n && !removed[p] ==>
        #[trigger] ctr[p] < rs.len() && rs[ctr[p] as int].contains(p as usize)
}

/// The state of the BD7 scan after the first `i` positions: the finished
/// runs, the run being built and the level of that run.
pub open spec fn lr_state(levels: Seq<u8>, removed: Seq<bool>, i: int) -> (Seq<Seq<usize>>, Seq<usize>, u8)
    decreases i,
{
    if i <= 0 {
        (Seq::empty(), Seq::empty(), REMOVED_LEVEL)
    } else {
        let st = lr_state(levels, removed, i - 1);
        let p = i - 1;
        if removed[p] {
            st
        } else if levels[p] != st.2 {
            (if st.1.len() > 0 { st.0.push(st.1) } else { st.0 }, seq![p as usize], levels[p])
        } else {
            (st.0, st.1.push(p as usize), st.2)
        }
    }
}

/// BD7: the level runs, maximal blocks of kept positions at one level, in
/// text order.
pub open spec fn level_runs(levels: Seq<u8>, removed: Seq<bool>) -> Seq<Seq<usize>> {
    let st = lr_state(levels, removed, levels.len() as int);
    if st.1.len() > 0 { st.0.push(st.1) } else { st.0 }
}

/// BD7: level runs, the maximal blocks of kept positions at one level,
/// with the run of each kept position.
fn build_level_runs(levels: &Vec<u8>, removed: &Vec<bool>) -> (res: (Vec<Vec<usize>>, Vec<usize>))
    requires
        removed@.len() == levels@.len(),
    ensures
        res.1@.len() == levels@.len(),
        runs_ok(runs_view(res.0@), res.1@, removed@, levels@.len() as int),
        runs_cover(runs_view(res.0@), res.1@, removed@, levels@.len() as int),
        runs_view(res.0@) == level_runs(levels@, removed@),
{
    let n = levels.len();
    let mut runs: Vec<Vec<usize>> = Vec::new();
    let mut current_run: Vec<usize> = Vec::new();
    let mut current_level: u8 = REMOVED_LEVEL;
    let mut char_to_run: Vec<usize> = Vec::new();
    let mut i: usize = 0;
    while i < n
        invariant
            n == levels@.len(),
            n == removed@.len(),
            i <= n,
            char_to_run@.len() == i,
            lr_state(levels@, removed@, i as int) == (runs_view(runs@), current_run@, current_level),
            runs_ok(runs_view(runs@), char_to_run@, removed@, i as int),
            forall|a: int, b: int| 0 <= a < b < current_run@.len() ==> current_run@[a] < current_run@[b],
            forall|a: int| 0 <= a < current_run@.len() ==> {
                &&& #[trigger] current_run@[a] < i
                &&& !removed@[current_run@[a] as int]
                &&& char_to_run@[current_run@[a] as int] == runs@.len()
            },
            forall|r: int, a: int, b: int| 0 <= r < runs@.len() && 0 <= a < runs@[r]@.len() && 0 <= b < current_run@.len()
                ==> #[trigger] runs_view(runs@)[r][a] < #[trigger] current_run@[b],
            forall|p: int| 0 <= p < i && !removed@[p] ==> {
                &&& #[trigger] char_to_run@[p] <= runs@.len()
                &&& char_to_run@[p] < runs@.len() ==> runs_view(runs@)[char_to_run@[p] as int].contains(p as usize)
                &&& char_to_run@[p] == runs@.len() ==> current_run@.contains(p as usize)
            },
        decreases n - i,
    {
        if removed[i] {
            char_to_run.push(0);
            i += 1;
            continue;
        }
        if levels[i] != current_level {
            if current_run.len() > 0 {
                let ghost cr = current_run@;
                let ghost rs0 = runs_view(runs@);
                let mut finished: Vec<usize> = Vec::new();
                std::mem::swap(&mut finished, &mut current_run);
                runs.push(finished);
                proof {
                    let rs = runs_view(runs@);
                    assert(rs == rs0.push(cr));
                    assert forall|p: int| 0 <= p < i && !removed@[p] implies {
                        &&& #[trigger] char_to_run@[p] <= runs@.len()
                        &&& char_to_run@[p] < runs@.len() ==> runs_view(runs@)[char_to_run@[p] as int].contains(p as usize)
                        &&& char_to_run@[p] == runs@.len() ==> current_run@.contains(p as usize)
                    } by {
                        if char_to_run@[p] == runs@.len() - 1 {
                            assert(cr.contains(p as usize));
                        } else if char_to_run@[p] < runs@.len() - 1 {
                            assert(rs[char_to_run@[p] as int] == rs0[char_to_run@[p] as int]);
                        }
                    }
                    assert(runs_ok(rs, char_to_run@, removed@, i as int)) by {
                        assert forall|r: int, a: int| 0 <= r < rs.len() && 0 <= a < rs[r].len() implies {
                            &&& #[trigger] rs[r][a] < i
                            &&& !removed@[rs[r][a] as int]
                            &&& char_to_run@[rs[r][a] as int] == r
                        } by {
                            if r == rs.len() - 1 {
                                assert(rs[r][a] == cr[a]);
                            } else {
                                assert(rs[r] == rs0[r]);
                            }
                        }
                        assert forall|r1: int, r2: int, a: int, b: int| 0 <= r1 < r2 < rs.len() && 0 <= a < rs[r1].len() && 0 <= b < rs[r2].len()
                            implies #[trigger] rs[r1][a] < #[trigger] rs[r2][b] by {
                            assert(rs[r1] == rs0[r1]);
                            if r2 == rs.len() - 1 {
                                assert(rs[r2][b] == cr[b]);
                                assert(runs_view(runs@.drop_last())[r1][a] < cr[b]);
                            } else {
                                assert(rs[r2] == rs0[r2]);
                            }
                        }
                        assert forall|r: int, a: int, b: int| 0 <= r < rs.len() && 0 <= a < b < rs[r].len()
                            implies #[trigger] rs[r][a] < #[trigger] rs[r][b] by {
                            if r == rs.len() - 1 {
                                assert(rs[r][a] == cr[a]);
                                assert(rs[r][b] == cr[b]);
                            } else {
                                assert(rs[r] == rs0[r]);
                            }
                        }
                    }
                }
            }
            current_level = levels[i];
        }
        let ghost cr0 = current_run@;
        current_run.push(i);
        char_to_run.push(runs.len());
        i += 1;
        proof {
            assert forall|p: int| 0 <= p < i && !removed@[p] implies {
                &&& #[trigger] char_to_run@[p] <= runs@.len()
                &&& char_to_run@[p] < runs@.len() ==> runs_view(runs@)[char_to_run@[p] as int].contains(p as usize)
                &&& char_to_run@[p] == runs@.len() ==> current_run@.contains(p as usize)
            } by {
                if p == i - 1 {
                    assert(current_run@[current_run@.len() - 1] == p as usize);
                } else if char_to_run@[p] == runs@.len() {
                    let a = choose|a: int| 0 <= a < cr0.len() && cr0[a] == p as usize;
                    assert(current_run@[a] == p as usize);
                }
            }
        }
    }
    if current_run.len() > 0 {
        let ghost cr = current_run@;
        let ghost rs0 = runs_view(runs@);
        runs.push(current_run);
        proof {
            let rs = runs_view(runs@);
            assert(rs == rs0.push(cr));
            assert forall|p: int| 0 <= p < n && !removed@[p] implies
                #[trigger] char_to_run@[p] < rs.len() && rs[char_to_run@[p] as int].contains(p as usize) by {
                if char_to_run@[p] == rs.len() - 1 {
                    assert(cr.contains(p as usize));
                } else {
                    assert(rs[char_to_run@[p] as int] == rs0[char_to_run@[p] as int]);
                }
            }
            assert(runs_ok(rs, char_to_run@, removed@, n as int)) by {
                assert forall|r: int, a: int| 0 <= r < rs.len() && 0 <= a < rs[r].len() implies {
                    &&& #[trigger] rs[r][a] < n
                    &&& !removed@[rs[r][a] as int]
                    &&& char_to_run@[rs[r][a] as int] == r
                } by {
                    if r == rs.len() - 1 {
                        assert(rs[r][a] == cr[a]);
                    } else {
                        assert(rs[r] == rs0[r]);
                    }
                }
                assert forall|r1: int, r2: int, a: int, b: int| 0 <= r1 < r2 < rs.len() && 0 <= a < rs[r1].len() && 0 <= b < rs[r2].len()
                    implies #[trigger] rs[r1][a] < #[trigger] rs[r2][b] by {
                    assert(rs[r1] == rs0[r1]);
                    if r2 == rs.len() - 1 {
                        assert(rs[r2][b] == cr[b]);
                        assert(runs_view(runs@.drop_last())[r1][a] < cr[b]);
                    } else {
                        assert(rs[r2] == rs0[r2]);
                    }
                }
                assert forall|r: int, a: int, b: int| 0 <= r < rs.len() && 0 <= a < b < rs[r].len()
                    implies #[trigger] rs[r][a] < #[trigger] rs[r][b] by {
                    if r == rs.len() - 1 {
                        assert(rs[r][a] == cr[a]);
                        assert(rs[r][b] == cr[b]);
                    } else {
                        assert(rs[r] == rs0[r]);
                    }
                }
            }
        }
    } else {
        proof {
            assert forall|p: int| 0 <= p < n && !removed@[p] implies
                #[trigger] char_to_run@[p] < runs_view(runs@).len() && runs_view(runs@)[char_to_run@[p] as int].contains(p as usize) by {
                if char_to_run@[p] == runs@.len() {
                    assert(current_run@.contains(p as usize));
                }
            }
        }
    }
    (runs, char_to_run)
}

/// The state of the BD9 scan after the first `i` positions: the stack of
/// unmatched isolate initiators, the matching PDI of each initiator and the
/// matching initiator of each PDI.
pub open spec fn iso_state(oc: Seq<BidiClass>, i: int) -> (Seq<usize>, Seq<Option<usize>>, Seq<Option<usize>>)
    decreases i,
{
    if i <= 0 {
        (Seq::empty(), Seq::new(oc.len(), |_p: int| None), Seq::new(oc.len(), |_p: int| None))
    } else {
        let st = iso_state(oc, i - 1);
        let p = i - 1;
        if is_isolate_initiator(oc[p]) {
            (st.0.push(p as usize), st.1, st.2)
        } else if oc[p] == BidiClass::PDI && st.0.len() > 0 {
            let init = st.0.last();
            (st.0.drop_last(), st.1.update(init as int, Some(p as usize)), st.2.update(p, Some(init)))
        } else {
            st
        }
    }
}

/// BD9: the matching PDI of each isolate initiator (`None` when unmatched).
pub open spec fn matching_pdi(oc: Seq<BidiClass>) -> Seq<Option<usize>> {
    iso_state(oc, oc.len() as int).1
}

/// BD9: the matching isolate initiator of each PDI (`None` when unmatched).
pub open spec fn matching_initiator(oc: Seq<BidiClass>) -> Seq<Option<usize>> {
    iso_state(oc, oc.len() as int).2
}

/// BD9: the matching PDI of each isolate initiator.
fn match_isolates(original_classes: &[BidiClass]) -> (res: (Vec<Option<usize>>, Vec<Option<usize>>))
    ensures
        res.0@.len() == original_classes@.len(),
        res.1@.len() == original_classes@.len(),
        forall|p: int| 0 <= p < res.0@.len() && (#[trigger] res.0@[p]) is Some
            ==> p < res.0@[p]->0 && res.0@[p]->0 < original_classes@.len(),
        res.0@ == matching_pdi(original_classes@),
        res.1@ == matching_initiator(original_classes@),
{
    let n = original_classes.len();
    let mut initiator_to_pdi: Vec<Option<usize>> = Vec::new();
    let mut pdi_to_initiator: Vec<Option<usize>> = Vec::new();
    let mut k: usize = 0;
    while k < n
        invariant
            k <= n,
            initiator_to_pdi@.len() == k,
            pdi_to_initiator@.len() == k,
            forall|p: int| 0 <= p < k ==> (#[trigger] initiator_to_pdi@[p]) is None,
            forall|p: int| 0 <= p < k ==> (#[trigger] pdi_to_initiator@[p]) is None,
        decreases n - k,
    {
        initiator_to_pdi.push(None);
        pdi_to_initiator.push(None);
        k += 1;
    }
    let mut stack: Vec<usize> = Vec::new();
    proof {
        assert(initiator_to_pdi@ == Seq::new(n as nat, |_p: int| None::<usize>));
        assert(pdi_to_initiator@ == Seq::new(n as nat, |_p: int| None::<usize>));
    }
    let mut i: usize = 0;
    while i < n
        invariant
            n == original_classes@.len(),
            i <= n,
            iso_state(original_classes@, i as int) == (stack@, initiator_to_pdi@, pdi_to_initiator@),
            initiator_to_pdi@.len() == n,
            pdi_to_initiator@.len() == n,
            forall|a: int| 0 <= a < stack@.len() ==> #[trigger] stack@[a] < i,
            forall|p: int| 0 <= p < n && (#[trigger] initiator_to_pdi@[p]) is Some
                ==> p < initiator_to_pdi@[p]->0 && initiator_to_pdi@[p]->0 < n,
        decreases n - i,
    {
        match original_classes[i] {
            BidiClass::LRI | BidiClass::RLI | BidiClass::FSI => {
                stack.push(i);
            },
            BidiClass::PDI => {
                if let Some(init) = stack.pop() {
                    initiator_to_pdi[init] = Some(i);
                    pdi_to_initiator[i] = Some(init);
                }
            },
            _ => {},
        }
        i += 1;
    }
    (initiator_to_pdi, pdi_to_initiator)
}

/// The run that holds position `p`.
pub open spec fn run_of(rs: Seq<Seq<usize>>, p: usize) -> int {
    choose|r: int| 0 <= r < rs.len() && rs[r].contains(p)
}

proof fn lemma_run_of(rs: Seq<Seq<usize>>, ctr: Seq<usize>, removed: Seq<bool>, n: int, p: usize)
    requires
        runs_ok(rs, ctr, removed, n),
        runs_cover(rs, ctr, removed, n),
        p < n,
        !removed[p as int],
    ensures
        run_of(rs, p) == ctr[p as int],
        0 <= run_of(rs, p) < rs.len(),
        rs[run_of(rs, p)].contains(p),
{
    assert(rs[ctr[p as int] as int].contains(p));
    let r = run_of(rs, p);
    let a = choose|a: int| 0 <= a < rs[r].len() && rs[r][a] == p;
    assert(ctr[rs[r][a] as int] == r);
}

/// The runs chained from run `ri` (X10): while a run ends with an isolate
/// initiator whose matching PDI is kept and lies in a later run that is not
/// used yet, the sequence goes on in that run.
pub open spec fn chain_from(rs: Seq<Seq<usize>>, i2p: Seq<Option<usize>>, removed: Seq<bool>, used: Seq<bool>, ri: int) -> Seq<usize>
    decreases rs.len() - ri,
{
    if ri < 0 || ri >= rs.len() || rs[ri].len() == 0 {
        Seq::empty()
    } else {
        let used2 = used.update(ri, true);
        match i2p[rs[ri].last() as int] {
            Some(pdi) => {
                let nr = run_of(rs, pdi);
                if !removed[pdi as int] && ri < nr < rs.len() && !used2[nr] {
                    seq![ri as usize] + chain_from(rs, i2p, removed, used2, nr)
                } else {
                    seq![ri as usize]
                }
            },
            None => seq![ri as usize],
        }
    }
}

/// Follow a chain of runs from `start_ri`: while a run ends with an
/// isolate initiator whose matching PDI is kept and starts an unused run,
/// continue in that run. The runs taken are marked used.
fn chain_runs(
    start_ri: usize,
    runs: &Vec<Vec<usize>>,
    char_to_run: &Vec<usize>,
    initiator_to_pdi: &Vec<Option<usize>>,
    removed: &Vec<bool>,
    run_used: &mut Vec<bool>,
) -> (chain: Vec<usize>)
    requires
        start_ri < runs@.len(),
        old(run_used)@.len() == runs@.len(),
        !old(run_used)@[start_ri as int],
        char_to_run@.len() == removed@.len(),
        initiator_to_pdi@.len() == removed@.len(),
        runs_ok(runs_view(runs@), char_to_run@, removed@, removed@.len() as int),
        runs_cover(runs_view(runs@), char_to_run@, removed@, removed@.len() as int),
        forall|p: int| 0 <= p < initiator_to_pdi@.len() && (#[trigger] initiator_to_pdi@[p]) is Some
            ==> p < initiator_to_pdi@[p]->0 && initiator_to_pdi@[p]->0 < removed@.len(),
    ensures
        chain@.len() > 0,
        chain@[0] == start_ri,
        forall|a: int, b: int| 0 <= a < b < chain@.len() ==> chain@[a] < chain@[b],
        forall|a: int| 0 <= a < chain@.len() ==> #[trigger] chain@[a] < runs@.len() && !old(run_used)@[chain@[a] as int],
        final(run_used)@.len() == old(run_used)@.len(),
        forall|r: int| 0 <= r < runs@.len() ==> (#[trigger] final(run_used)@[r] <==> (old(run_used)@[r] || chain@.contains(r as usize))),
        chain@ == chain_from(runs_view(runs@), initiator_to_pdi@, removed@, old(run_used)@, start_ri as int),
{
    let num_runs = runs.len();
    let ghost rs = runs_view(runs@);
    let mut chain: Vec<usize> = Vec::new();
    let mut ri = start_ri;
    loop
        invariant_except_break
            ri < num_runs,
            !run_used@[ri as int],
            !old(run_used)@[ri as int],
            forall|a: int| 0 <= a < chain@.len() ==> #[trigger] chain@[a] < ri,
            chain@.len() > 0 || ri == start_ri,
            chain@ + chain_from(rs, initiator_to_pdi@, removed@, run_used@, ri as int)
                == chain_from(rs, initiator_to_pdi@, removed@, old(run_used)@, start_ri as int),
        invariant
            num_runs == runs@.len(),
            rs == runs_view(runs@),
            run_used@.len() == num_runs,
            char_to_run@.len() == removed@.len(),
            initiator_to_pdi@.len() == removed@.len(),
            runs_ok(rs, char_to_run@, removed@, removed@.len() as int),
            runs_cover(rs, char_to_run@, removed@, removed@.len() as int),
            forall|p: int| 0 <= p < initiator_to_pdi@.len() && (#[trigger] initiator_to_pdi@[p]) is Some
                ==> p < initiator_to_pdi@[p]->0 && initiator_to_pdi@[p]->0 < removed@.len(),
            forall|a: int, b: int| 0 <= a < b < chain@.len() ==> chain@[a] < chain@[b],
            forall|a: int| 0 <= a < chain@.len() ==> #[trigger] chain@[a] < num_runs && !old(run_used)@[chain@[a] as int],
            forall|r: int| 0 <= r < num_runs ==> (#[trigger] run_used@[r] <==> (old(run_used)@[r] || chain@.contains(r as usize))),
            chain@.len() > 0 ==> chain@[0] == start_ri,
        ensures
            chain@.len() > 0,
            chain@ == chain_from(rs, initiator_to_pdi@, removed@, old(run_used)@, start_ri as int),
        decreases num_runs - ri,
    {
        let ghost chain0 = chain@;
        let ghost used0 = run_used@;
        chain.push(ri);
        run_used[ri] = true;
        proof {
            assert forall|r: int| 0 <= r < num_runs implies (#[trigger] run_used@[r] <==> (old(run_used)@[r] || chain@.contains(r as usize))) by {
                if chain0.contains(r as usize) {
                    let a = choose|a: int| 0 <= a < chain0.len() && chain0[a] == r as usize;
                    assert(chain@[a] == r as usize);
                }
                if r == ri {
                    assert(chain@[chain@.len() - 1] == ri);
                } else if chain@.contains(r as usize) {
                    let a = choose|a: int| 0 <= a < chain@.len() && chain@[a] == r as usize;
                    assert(a < chain0.len());
                    assert(chain0[a] == r as usize);
                }
            }
        }
        let run_len = runs[ri].len();
        proof {
            assert(rs[ri as int].len() > 0);
        }
        let last_char = runs[ri][run_len - 1];
        if let Some(pdi_idx) = initiator_to_pdi[last_char] {
            if !removed[pdi_idx] {
                let next_ri = char_to_run[pdi_idx];
                proof {
                    assert(rs[ri as int][run_len - 1] == last_char);
                    assert(rs[next_ri as int].contains(pdi_idx));
                    let b = choose|b: int| 0 <= b < rs[next_ri as int].len() && rs[next_ri as int][b] == pdi_idx;
                    if next_ri < ri {
                        assert(rs[next_ri as int][b] < rs[ri as int][run_len - 1]);
                    } else if next_ri == ri {
                        if b < run_len - 1 {
                            assert(rs[ri as int][b] < rs[ri as int][run_len - 1]);
                        }
                    }
                }
                if !run_used[next_ri] {
                    proof {
                        assert(!old(run_used)@[next_ri as int]);
                        lemma_run_of(rs, char_to_run@, removed@, removed@.len() as int, pdi_idx);
                        assert(run_used@ == used0.update(ri as int, true));
                        assert(chain_from(rs, initiator_to_pdi@, removed@, used0, ri as int)
                            == seq![ri] + chain_from(rs, initiator_to_pdi@, removed@, run_used@, next_ri as int));
                        assert(chain0 + (seq![ri] + chain_from(rs, initiator_to_pdi@, removed@, run_used@, next_ri as int))
                            == chain@ + chain_from(rs, initiator_to_pdi@, removed@, run_used@, next_ri as int));
                    }
                    ri = next_ri;
                    continue;
                }
                proof {
                    lemma_run_of(rs, char_to_run@, removed@, removed@.len() as int, pdi_idx);
                }
            }
        }
        proof {
            assert(run_used@ == used0.update(ri as int, true));
            assert(chain_from(rs, initiator_to_pdi@, removed@, used0, ri as int) == seq![ri]);
            assert(chain0 + seq![ri] == chain@);
        }
        break;
    }
    chain
}

/// The positions of the runs of a chain, run after run.
pub open spec fn gather_runs(rs: Seq<Seq<usize>>, chain: Seq<usize>) -> Seq<usize>
    decreases chain.len(),
{
    if chain.len() == 0 {
        Seq::empty()
    } else {
        gather_runs(rs, chain.drop_last()) + rs[chain.last() as int]
    }
}

/// Concatenate the runs of a chain.
fn gather_chain(chain: &Vec<usize>, runs: &Vec<Vec<usize>>, char_to_run: &Vec<usize>, removed: &Vec<bool>) -> (indices: Vec<usize>)
    requires
        chain@.len() > 0,
        forall|a: int, b: int| 0 <= a < b < chain@.len() ==> chain@[a] < chain@[b],
        forall|a: int| 0 <= a < chain@.len() ==> #[trigger] chain@[a] < runs@.len(),
        runs_ok(runs_view(runs@), char_to_run@, removed@, removed@.len() as int),
    ensures
        indices@.len() > 0,
        increasing_below(indices@, removed@.len() as int),
        indices@[0] == runs@[chain@[0] as int]@[0],
        forall|a: int| 0 <= a < indices@.len() ==> !removed@[#[trigger] indices@[a] as int]
            && chain@.contains(char_to_run@[indices@[a] as int]),
        indices@ == gather_runs(runs_view(runs@), chain@),
{
    let ghost rs = runs_view(runs@);
    let mut indices: Vec<usize> = Vec::new();
    let mut c: usize = 0;
    while c < chain.len()
        invariant
            rs == runs_view(runs@),
            runs_ok(rs, char_to_run@, removed@, removed@.len() as int),
            c <= chain@.len(),
            forall|a: int, b: int| 0 <= a < b < chain@.len() ==> chain@[a] < chain@[b],
            forall|a: int| 0 <= a < chain@.len() ==> #[trigger] chain@[a] < runs@.len(),
            c > 0 ==> indices@.len() > 0,
            c == 0 ==> indices@.len() == 0,
            forall|a: int, b: int| 0 <= a < b < indices@.len() ==> indices@[a] < indices@[b],
            forall|a: int| 0 <= a < indices@.len() ==> {
                &&& #[trigger] indices@[a] < removed@.len()
                &&& !removed@[indices@[a] as int]
                &&& chain@.take(c as int).contains(char_to_run@[indices@[a] as int])
            },
            forall|a: int, r: int, b: int| 0 <= a < indices@.len() && c <= r < chain@.len()
                && 0 <= b < rs[chain@[r] as int].len() ==> #[trigger] indices@[a] < #[trigger] rs[chain@[r] as int][b],
            c > 0 ==> indices@[0] == rs[chain@[0] as int][0],
            indices@ == gather_runs(rs, chain@.take(c as int)),
        decreases chain@.len() - c,
    {
        let cri = chain[c];
        let ghost before = indices@;
        proof {
            assert(forall|a: int, b: int| 0 <= a < b < before.len() ==> before[a] < before[b]);
            assert forall|a: int, b: int| 0 <= a < before.len() && 0 <= b < rs[cri as int].len()
                implies #[trigger] before[a] < #[trigger] rs[cri as int][b] by {
                assert(indices@[a] < rs[chain@[c as int] as int][b]);
            }
            assert(forall|a: int| 0 <= a < before.len() ==> before[a] < removed@.len()
                && !removed@[before[a] as int]
                && chain@.take(c as int).contains(char_to_run@[before[a] as int]));
        }
        let mut e: usize = 0;
        while e < runs[cri].len()
            invariant
                rs == runs_view(runs@),
                cri < runs@.len(),
                e <= rs[cri as int].len(),
                indices@.len() == before.len() + e,
                forall|a: int| 0 <= a < before.len() ==> indices@[a] == before[a],
                forall|a: int| 0 <= a < e ==> indices@[before.len() + a] == rs[cri as int][a],
            decreases rs[cri as int].len() - e,
        {
            indices.push(runs[cri][e]);
            e += 1;
        }
        proof {
            assert(rs[cri as int].len() > 0);
            assert(chain@.take(c + 1) == chain@.take(c as int).push(cri));
            assert(indices@ == before + rs[cri as int]);
            assert(chain@.take(c + 1).drop_last() == chain@.take(c as int));
            assert forall|a: int, b: int| 0 <= a < b < indices@.len() implies indices@[a] < indices@[b] by {
                if a < before.len() && b >= before.len() {
                    assert(indices@[a] == before[a]);
                    assert(indices@[b] == rs[cri as int][b - before.len()]);
                } else if a < before.len() {
                    assert(indices@[a] == before[a]);
                    assert(indices@[b] == before[b]);
                } else if a >= before.len() {
                    assert(indices@[a] == rs[cri as int][a - before.len()]);
                    assert(indices@[b] == rs[cri as int][b - before.len()]);
                }
            }
            assert forall|a: int| 0 <= a < indices@.len() implies {
                &&& #[trigger] indices@[a] < removed@.len()
                &&& !removed@[indices@[a] as int]
                &&& chain@.take(c + 1).contains(char_to_run@[indices@[a] as int])
            } by {
                if a < before.len() {
                    let w = choose|w: int| 0 <= w < c && chain@.take(c as int)[w] == char_to_run@[before[a] as int];
                    assert(chain@.take(c + 1)[w] == char_to_run@[before[a] as int]);
                } else {
                    assert(indices@[a] == rs[cri as int][a - before.len()]);
                    assert(chain@.take(c + 1)[c as int] == cri);
                }
            }
            assert forall|a: int, r: int, b: int| 0 <= a < indices@.len() && c + 1 <= r < chain@.len()
                && 0 <= b < rs[chain@[r] as int].len() implies #[trigger] indices@[a] < #[trigger] rs[chain@[r] as int][b] by {
                assert(chain@[c as int] < chain@[r]);
                if a >= before.len() {
                    assert(indices@[a] == rs[cri as int][a - before.len()]);
                } else {
                    assert(indices@[a] == before[a]);
                    assert(before[a] < rs[cri as int][0]);
                }
            }
            if c == 0 {
                assert(indices@[0] == rs[cri as int][0]);
            }
        }
        c += 1;
    }
    proof {
        assert(chain@.take(chain@.len() as int) == chain@);
    }
    indices
}

/// The eos of a sequence of level `level` whose last position is `last`
/// (X10): when isolates are followed and `last` is an isolate initiator,
/// from the level of its matching PDI or, unmatched, the paragraph level;
/// else from the next kept position.
pub open spec fn eos_for(
    levels: Seq<u8>,
    removed: Seq<bool>,
    oc: Seq<BidiClass>,
    i2p: Seq<Option<usize>>,
    last: int,
    level: u8,
    para: u8,
    follow: bool,
) -> BidiClass {
    let next = if follow && is_isolate_initiator(oc[last]) {
        match i2p[last] {
            Some(q) => levels[q as int],
            None => para,
        }
    } else {
        next_level_from(levels, removed, last + 1, para)
    };
    let f = if next == REMOVED_LEVEL { para } else { next };
    dir_of_level(if level >= f { level as int } else { f as int })
}

/// sos and eos of a sequence from its first and last positions (X10).
fn sequence_ends(
    indices: &Vec<usize>,
    original_classes: &[BidiClass],
    levels: &Vec<u8>,
    removed: &Vec<bool>,
    initiator_to_pdi: &Vec<Option<usize>>,
    para_level: u8,
    follow_isolates: bool,
) -> (res: (u8, BidiClass, BidiClass))
    requires
        indices@.len() > 0,
        increasing_below(indices@, levels@.len() as int),
        original_classes@.len() == levels@.len(),
        removed@.len() == levels@.len(),
        initiator_to_pdi@.len() == levels@.len(),
        forall|p: int| 0 <= p < initiator_to_pdi@.len() && (#[trigger] initiator_to_pdi@[p]) is Some
            ==> initiator_to_pdi@[p]->0 < levels@.len(),
    ensures
        res.0 == levels@[indices@[0] as int],
        res.1 == sos_for(levels@, removed@, indices@[0] as int, res.0, para_level),
        res.2 == BidiClass::L || res.2 == BidiClass::R,
        res.2 == eos_for(levels@, removed@, original_classes@, initiator_to_pdi@,
            indices@[indices@.len() - 1] as int, res.0, para_level, follow_isolates),
{
    let run_level = levels[indices[0]];
    let first_idx = indices[0];
    let last_idx = indices[indices.len() - 1];
    let prev_level = find_preceding_level(first_idx, levels, removed, para_level);
    let sos_level = if run_level >= prev_level { run_level } else { prev_level };
    let sos = level_dir(sos_level);
    let last_is_isolate_init = follow_isolates && match original_classes[last_idx] {
        BidiClass::LRI | BidiClass::RLI | BidiClass::FSI => true,
        _ => false,
    };
    let next_level = if last_is_isolate_init {
        if let Some(pdi_idx) = initiator_to_pdi[last_idx] {
            levels[pdi_idx]
        } else {
            para_level
        }
    } else {
        find_following_level(last_idx, levels, removed, para_level)
    };
    let follow = if next_level == REMOVED_LEVEL { para_level } else { next_level };
    let eos_level = if run_level >= follow { run_level } else { follow };
    let eos = level_dir(eos_level);
    (run_level, sos, eos)
}

/// A sequence as plain values: positions, level, sos and eos.
pub open spec fn seq_view(s: IsolatingRunSequence) -> (Seq<usize>, u8, BidiClass, BidiClass) {
    (s.indices@, s.level, s.sos, s.eos)
}

pub open spec fn seqs_view(ss: Seq<IsolatingRunSequence>) -> Seq<(Seq<usize>, u8, BidiClass, BidiClass)> {
    ss.map_values(|s: IsolatingRunSequence| seq_view(s))
}

/// The sequence made of the positions `ix`, with its level, sos and eos.
pub open spec fn new_sequence(
    levels: Seq<u8>,
    removed: Seq<bool>,
    oc: Seq<BidiClass>,
    para: u8,
    ix: Seq<usize>,
    follow: bool,
) -> (Seq<usize>, u8, BidiClass, BidiClass) {
    let level = levels[ix[0] as int];
    (
        ix,
        level,
        sos_for(levels, removed, ix[0] as int, level, para),
        eos_for(levels, removed, oc, matching_pdi(oc), ix[ix.len() - 1] as int, level, para, follow),
    )
}

/// One step of X10: run `ri` in pass `pass`. The first pass starts a
/// sequence at each unused run that does not begin with a matched PDI and
/// chains runs from it; the second makes each run still unused a sequence
/// of its own.
pub open spec fn x10_step(
    levels: Seq<u8>,
    removed: Seq<bool>,
    oc: Seq<BidiClass>,
    para: u8,
    st: (Seq<bool>, Seq<(Seq<usize>, u8, BidiClass, BidiClass)>),
    pass: int,
    ri: int,
) -> (Seq<bool>, Seq<(Seq<usize>, u8, BidiClass, BidiClass)>) {
    let rs = level_runs(levels, removed);
    if st.0[ri] || (pass == 1 && matching_initiator(oc)[rs[ri][0] as int] is Some) {
        st
    } else {
        let chain = if pass == 1 {
            chain_from(rs, matching_pdi(oc), removed, st.0, ri)
        } else {
            seq![ri as usize]
        };
        (
            Seq::new(st.0.len(), |r: int| st.0[r] || chain.contains(r as usize)),
            st.1.push(new_sequence(levels, removed, oc, para, gather_runs(rs, chain), pass == 1)),
        )
    }
}

/// The used runs and the sequences after X10 has looked at the first `ri`
/// runs in pass `pass`.
pub open spec fn x10_state(levels: Seq<u8>, removed: Seq<bool>, oc: Seq<BidiClass>, para: u8, pass: int, ri: int)
    -> (Seq<bool>, Seq<(Seq<usize>, u8, BidiClass, BidiClass)>)
    decreases pass, ri,
{
    if pass <= 1 {
        if ri <= 0 {
            (Seq::new(level_runs(levels, removed).len(), |_r: int| false), Seq::empty())
        } else {
            x10_step(levels, removed, oc, para, x10_state(levels, removed, oc, para, pass, ri - 1), 1, ri - 1)
        }
    } else {
        if ri <= 0 {
            x10_state(levels, removed, oc, para, 1, level_runs(levels, removed).len() as int)
        } else {
            x10_step(levels, removed, oc, para, x10_state(levels, removed, oc, para, pass, ri - 1), 2, ri - 1)
        }
    }
}

/// X10 (BD13): the isolating run sequences, in the order they are built.
pub open spec fn isolating_run_sequences(oc: Seq<BidiClass>, levels: Seq<u8>, removed: Seq<bool>, para: u8)
    -> Seq<(Seq<usize>, u8, BidiClass, BidiClass)>
{
    x10_state(levels, removed, oc, para, 2, level_runs(levels, removed).len() as int).1
}

/// X10 (BD13): split the kept positions into level runs and chain the runs
/// that an isolate initiator and its matching PDI connect into isolating
/// run sequences.
pub fn build_isolating_run_sequences(
    original_classes: &[BidiClass],
    classes: &Vec<BidiClass>,
    levels: &Vec<u8>,
    removed: &Vec<bool>,
    para_level: u8,
) -> (seqs: Vec<IsolatingRunSequence>)
    requires
        classes@.len() == original_classes@.len(),
        levels@.len() == original_classes@.len(),
        removed@.len() == original_classes@.len(),
    ensures
        valid_sequences(seqs@, levels@, removed@, para_level),
        seqs_view(seqs@) == isolating_run_sequences(original_classes@, levels@, removed@, para_level),
{
    let n = classes.len();
    let ghost oc = original_classes@;
    if n == 0 {
        proof {
            assert(level_runs(levels@, removed@) =~= Seq::empty());
            assert(seqs_view(Seq::<IsolatingRunSequence>::empty()) =~= Seq::empty());
            assert(x10_state(levels@, removed@, oc, para_level, 2, 0) == x10_state(levels@, removed@, oc, para_level, 1, 0));
        }
        return Vec::new();
    }
    let (runs, char_to_run) = build_level_runs(levels, removed);
    if runs.len() == 0 {
        proof {
            assert(seqs_view(Seq::<IsolatingRunSequence>::empty()) =~= Seq::empty());
            assert(x10_state(levels@, removed@, oc, para_level, 2, 0) == x10_state(levels@, removed@, oc, para_level, 1, 0));
        }
        return Vec::new();
    }
    let (initiator_to_pdi, pdi_to_initiator) = match_isolates(original_classes);
    let num_runs = runs.len();
    let mut run_used: Vec<bool> = Vec::new();
    let mut k: usize = 0;
    while k < num_runs
        invariant
            k <= num_runs,
            run_used@.len() == k,
            forall|r: int| 0 <= r < k ==> !run_used@[r],
        decreases num_runs - k,
    {
        run_used.push(false);
        k += 1;
    }
    let ghost mut owner: Seq<int> = Seq::new(num_runs as nat, |r: int| -1int);
    let mut sequences: Vec<IsolatingRunSequence> = Vec::new();
    proof {
        assert(run_used@ =~= Seq::new(num_runs as nat, |_r: int| false));
        assert(seqs_view(sequences@) =~= Seq::empty());
    }
    // Pass 1: sequences that start with a run not continuing an isolate;
    // pass 2: the runs still unused.
    let mut pass: usize = 1;
    while pass <= 2
        invariant
            1 <= pass <= 3,
            n == levels@.len(),
            n == removed@.len(),
            n == original_classes@.len(),
            num_runs == runs@.len(),
            char_to_run@.len() == n,
            initiator_to_pdi@.len() == n,
            pdi_to_initiator@.len() == n,
            runs_ok(runs_view(runs@), char_to_run@, removed@, n as int),
            runs_cover(runs_view(runs@), char_to_run@, removed@, n as int),
            forall|p: int| 0 <= p < initiator_to_pdi@.len() && (#[trigger] initiator_to_pdi@[p]) is Some
                ==> p < initiator_to_pdi@[p]->0 && initiator_to_pdi@[p]->0 < n,
            run_used@.len() == num_runs,
            owner.len() == num_runs,
            forall|r: int| 0 <= r < num_runs ==> (#[trigger] run_used@[r] <==> owner[r] >= 0)
                && owner[r] < sequences@.len(),
            valid_sequences(sequences@, levels@, removed@, para_level),
            forall|s: int, a: int| 0 <= s < sequences@.len() && 0 <= a < sequences@[s].indices@.len()
                ==> owner[char_to_run@[#[trigger] sequences@[s].indices@[a] as int] as int] == s,
            oc == original_classes@,
            runs_view(runs@) == level_runs(levels@, removed@),
            initiator_to_pdi@ == matching_pdi(oc),
            pdi_to_initiator@ == matching_initiator(oc),
            (run_used@, seqs_view(sequences@)) == (if pass == 1 {
                x10_state(levels@, removed@, oc, para_level, 1, 0)
            } else {
                x10_state(levels@, removed@, oc, para_level, pass - 1, num_runs as int)
            }),
        decreases 3 - pass,
    {
        let mut start_ri: usize = 0;
        while start_ri < num_runs
            invariant
                n == levels@.len(),
                n == removed@.len(),
                n == original_classes@.len(),
                num_runs == runs@.len(),
                1 <= pass <= 2,
                char_to_run@.len() == n,
                initiator_to_pdi@.len() == n,
                pdi_to_initiator@.len() == n,
                runs_ok(runs_view(runs@), char_to_run@, removed@, n as int),
                runs_cover(runs_view(runs@), char_to_run@, removed@, n as int),
                forall|p: int| 0 <= p < initiator_to_pdi@.len() && (#[trigger] initiator_to_pdi@[p]) is Some
                    ==> p < initiator_to_pdi@[p]->0 && initiator_to_pdi@[p]->0 < n,
                run_used@.len() == num_runs,
                owner.len() == num_runs,
                forall|r: int| 0 <= r < num_runs ==> (#[trigger] run_used@[r] <==> owner[r] >= 0)
                    && owner[r] < sequences@.len(),
                valid_sequences(sequences@, levels@, removed@, para_level),
                forall|s: int, a: int| 0 <= s < sequences@.len() && 0 <= a < sequences@[s].indices@.len()
                    ==> owner[char_to_run@[#[trigger] sequences@[s].indices@[a] as int] as int] == s,
                oc == original_classes@,
                runs_view(runs@) == level_runs(levels@, removed@),
                initiator_to_pdi@ == matching_pdi(oc),
                pdi_to_initiator@ == matching_initiator(oc),
                start_ri <= num_runs,
                (run_used@, seqs_view(sequences@)) == x10_state(levels@, removed@, oc, para_level, pass as int, start_ri as int),
            decreases num_runs - start_ri,
        {
            if run_used[start_ri] {
                start_ri += 1;
                continue;
            }
            proof {
                assert(runs_view(runs@)[start_ri as int].len() > 0);
            }
            let first_char = runs[start_ri][0];
            if pass == 1 && pdi_to_initiator[first_char].is_some() {
                start_ri += 1;
                continue;
            }
            let ghost used0 = run_used@;
            let ghost owner0 = owner;
            let ghost sid = sequences@.len() as int;
            let chain = if pass == 1 {
                chain_runs(start_ri, &runs, &char_to_run, &initiator_to_pdi, removed, &mut run_used)
            } else {
                run_used[start_ri] = true;
                let mut single: Vec<usize> = Vec::new();
                single.push(start_ri);
                proof {
                    assert forall|r: int| 0 <= r < num_runs implies (#[trigger] run_used@[r] <==> (used0[r] || single@.contains(r as usize))) by {
                        if r == start_ri {
                            assert(single@[0] == start_ri);
                        }
                    }
                }
                single
            };
            proof {
                owner = Seq::new(num_runs as nat, |r: int| if chain@.contains(r as usize) { sid } else { owner0[r] });
            }
            let indices = gather_chain(&chain, &runs, &char_to_run, removed);
            let (run_level, sos, eos) = sequence_ends(
                &indices, original_classes, levels, removed, &initiator_to_pdi, para_level, pass == 1);
            let ghost old_seqs = sequences@;
            sequences.push(IsolatingRunSequence { indices, level: run_level, sos, eos });
            proof {
                assert forall|r: int| 0 <= r < num_runs implies (#[trigger] run_used@[r] <==> owner[r] >= 0)
                    && owner[r] < sequences@.len() by {
                    if chain@.contains(r as usize) {
                    } else {
                        assert(run_used@[r] == used0[r]);
                    }
                }
                assert forall|s: int, a: int| 0 <= s < sequences@.len() && 0 <= a < sequences@[s].indices@.len()
                    implies owner[char_to_run@[#[trigger] sequences@[s].indices@[a] as int] as int] == s by {
                    let x = sequences@[s].indices@[a];
                    if s < old_seqs.len() {
                        assert(sequences@[s] == old_seqs[s]);
                        let r = char_to_run@[x as int] as int;
                        assert(owner0[r] == s);
                        assert(used0[r]);
                        if chain@.contains(r as usize) {
                            let w = choose|w: int| 0 <= w < chain@.len() && chain@[w] == r as usize;
                            assert(!used0[chain@[w] as int]);
                        }
                    } else {
                        assert(chain@.contains(char_to_run@[x as int]));
                    }
                }
                assert forall|s1: int, s2: int, a: int, b: int|
                    0 <= s1 < sequences@.len() && 0 <= s2 < sequences@.len() && s1 != s2
                    && 0 <= a < sequences@[s1].indices@.len() && 0 <= b < sequences@[s2].indices@.len()
                    implies #[trigger] sequences@[s1].indices@[a] != #[trigger] sequences@[s2].indices@[b] by {
                    let x = sequences@[s1].indices@[a];
                    let y = sequences@[s2].indices@[b];
                    assert(owner[char_to_run@[x as int] as int] == s1);
                    assert(owner[char_to_run@[y as int] as int] == s2);
                }
                assert forall|s: int| 0 <= s < sequences@.len() implies {
                    let ix = (#[trigger] sequences@[s]).indices@;
                    &&& ix.len() > 0
                    &&& increasing_below(ix, levels@.len() as int)
                    &&& forall|k: int| 0 <= k < ix.len() ==> !removed@[#[trigger] ix[k] as int]
                    &&& sequences@[s].level == levels@[ix[0] as int]
                    &&& sequences@[s].sos == sos_for(levels@, removed@, ix[0] as int, sequences@[s].level, para_level)
                    &&& (sequences@[s].eos == BidiClass::L || sequences@[s].eos == BidiClass::R)
                } by {
                    if s < old_seqs.len() {
                        assert(sequences@[s] == old_seqs[s]);
                    }
                }
            }
            start_ri += 1;
        }
        pass += 1;
    }
    sequences
}

} // verus!

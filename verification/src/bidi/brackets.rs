//! N0: paired bracket resolution (BD16).
use vstd::prelude::*;

use crate::data::bidi_class::{
    BidiClass, bracket_pair, is_closing_bracket, opening_bracket_for, spec_bracket_pair, spec_is_closing_bracket,
    spec_opening_bracket_for,
};
use crate::data::normalization::canonical_decomposition;

verus! {

/// Maximum depth of the bracket stack (BD16).
pub const MAX_BRACKET_STACK: usize = 63;

/// The direction a resolved type gives for N0 (EN and AN count as R).
pub open spec fn strong_for_n0(c: BidiClass) -> Option<BidiClass> {
    if c == BidiClass::L {
        Some(BidiClass::L)
    } else if c == BidiClass::R || c == BidiClass::AL || c == BidiClass::AN || c == BidiClass::EN {
        Some(BidiClass::R)
    } else {
        None
    }
}

fn strong_type_for_n0(bc: BidiClass) -> (r: Option<BidiClass>)
    ensures
        r == strong_for_n0(bc),
{
    match bc {
        BidiClass::L => Some(BidiClass::L),
        BidiClass::R | BidiClass::AL | BidiClass::AN | BidiClass::EN => Some(BidiClass::R),
        _ => None,
    }
}

/// The bracket a code point stands for in BD16: its singleton canonical
/// decomposition when that is itself a bracket, else the code point.
pub open spec fn canonical_bracket(c: char) -> char {
    let d = crate::data::normalization::ucd_canonical_decomposition(c);
    if d.len() == 1 && (crate::data::bidi_class::spec_bracket_pair(d[0] as u32) is Some
        || crate::data::bidi_class::spec_is_closing_bracket(d[0] as u32)) {
        d[0]
    } else {
        c
    }
}

/// BD16: canonical equivalents of brackets (U+2329/U+232A and U+3008/U+3009)
/// pair with each other.
pub fn canonical_bracket_cp(c: char) -> (r: char)
    ensures
        r == canonical_bracket(c),
{
    let decomp = canonical_decomposition(c);
    if decomp.len() == 1 {
        let d = decomp[0];
        if bracket_pair(d as u32).is_some() || is_closing_bracket(d as u32) {
            return d;
        }
    }
    c
}

/// Where a pair with opening position `key` goes among `sorted`, scanning
/// back from place `k` past the pairs that open later.
pub open spec fn insert_pos(sorted: Seq<(usize, usize)>, key: usize, k: int) -> int
    decreases k,
{
    if k > 0 && sorted[k - 1].0 > key {
        insert_pos(sorted, key, k - 1)
    } else {
        k
    }
}

/// The pairs ordered by the position of their opening bracket, pairs with
/// equal keys in their order (insertion sort).
pub open spec fn sort_by_open(prs: Seq<(usize, usize)>) -> Seq<(usize, usize)>
    decreases prs.len(),
{
    if prs.len() == 0 {
        Seq::empty()
    } else {
        let s = sort_by_open(prs.drop_last());
        let p = prs.last();
        s.insert(insert_pos(s, p.0, s.len() as int), p)
    }
}

/// Sort bracket pairs by the position of their opening bracket, keeping
/// pairs with equal keys in their order (insertion sort).
fn sort_pairs_by_open(pairs: &Vec<(usize, usize)>) -> (sorted: Vec<(usize, usize)>)
    ensures
        sorted@ == sort_by_open(pairs@),
        sorted@.len() == pairs@.len(),
        forall|a: int, b: int| 0 <= a < b < sorted@.len() ==> sorted@[a].0 <= sorted@[b].0,
        forall|k: int| 0 <= k < sorted@.len() ==> pairs@.contains(#[trigger] sorted@[k]),
{
    let mut sorted: Vec<(usize, usize)> = Vec::new();
    let mut i: usize = 0;
    while i < pairs.len()
        invariant
            i <= pairs@.len(),
            sorted@.len() == i,
            sorted@ == sort_by_open(pairs@.take(i as int)),
            forall|a: int, b: int| 0 <= a < b < sorted@.len() ==> sorted@[a].0 <= sorted@[b].0,
            forall|k: int| 0 <= k < sorted@.len() ==> pairs@.contains(#[trigger] sorted@[k]),
        decreases pairs@.len() - i,
    {
        let p = pairs[i];
        let mut k = sorted.len();
        while k > 0 && sorted[k - 1].0 > p.0
            invariant
                k <= sorted@.len(),
                forall|a: int, b: int| 0 <= a < b < sorted@.len() ==> sorted@[a].0 <= sorted@[b].0,
                forall|j: int| k <= j < sorted@.len() ==> sorted@[j].0 > p.0,
                insert_pos(sorted@, p.0, k as int) == insert_pos(sorted@, p.0, sorted@.len() as int),
            decreases k,
        {
            k -= 1;
        }
        let ghost before = sorted@;
        sorted.insert(k, p);
        proof {
            assert(pairs@[i as int] == p);
            assert(pairs@.take(i + 1).drop_last() == pairs@.take(i as int));
            assert(pairs@.take(i + 1).last() == p);
            assert forall|j: int| 0 <= j < sorted@.len() implies pairs@.contains(#[trigger] sorted@[j]) by {
                if j < k {
                    assert(sorted@[j] == before[j]);
                } else if j > k {
                    assert(sorted@[j] == before[j - 1]);
                }
            }
            assert forall|a: int, b: int| 0 <= a < b < sorted@.len() implies sorted@[a].0 <= sorted@[b].0 by {
                if a < k && b == k {
                    assert(before[k - 1].0 <= p.0);
                    assert(before[a].0 <= before[k - 1].0 || a == k - 1);
                } else if a == k && b > k {
                    assert(before[b - 1].0 > p.0);
                }
            }
        }
        i += 1;
    }
    proof {
        assert(pairs@.take(pairs@.len() as int) == pairs@);
    }
    sorted
}

/// The last place below `k` of the bracket stack that holds bracket `c`,
/// or -1.
pub open spec fn last_open_with(st: Seq<(usize, char)>, c: char, k: int) -> int
    decreases k,
{
    if k <= 0 {
        -1
    } else if st[k - 1].1 == c {
        k - 1
    } else {
        last_open_with(st, c, k - 1)
    }
}

/// BD16 over the first `j` places of a sequence with types `sc` and
/// characters `chars`: the stack of opening brackets (place and bracket),
/// the pairs found (opening place, closing place), and whether the stack
/// overflowed, which stops the scan. Only places of type ON take part.
pub open spec fn bd16_state(sc: Seq<BidiClass>, chars: Seq<char>, j: int) -> (Seq<(usize, char)>, Seq<(usize, usize)>, bool)
    decreases j,
{
    if j <= 0 {
        (Seq::empty(), Seq::empty(), false)
    } else {
        let st = bd16_state(sc, chars, j - 1);
        let q = j - 1;
        if st.2 || sc[q] != BidiClass::ON {
            st
        } else {
            let cp = canonical_bracket(chars[q]);
            if spec_bracket_pair(cp as u32) is Some {
                if st.0.len() >= MAX_BRACKET_STACK {
                    (st.0, st.1, true)
                } else {
                    (st.0.push((q as usize, cp)), st.1, false)
                }
            } else if spec_is_closing_bracket(cp as u32) && spec_opening_bracket_for(cp as u32) is Some {
                let k = last_open_with(st.0, spec_opening_bracket_for(cp as u32)->0, st.0.len() as int);
                if k >= 0 {
                    (st.0.subrange(0, k), st.1.push((st.0[k].0, q as usize)), false)
                } else {
                    st
                }
            } else {
                st
            }
        }
    }
}

proof fn lemma_bd16_stopped(sc: Seq<BidiClass>, chars: Seq<char>, a: int, b: int)
    requires
        0 <= a <= b,
        bd16_state(sc, chars, a).2,
    ensures
        bd16_state(sc, chars, b) == bd16_state(sc, chars, a),
    decreases b - a,
{
    if b > a {
        lemma_bd16_stopped(sc, chars, a, b - 1);
    }
}

/// The strong direction that N0 finds last before place `k`, else `sos`.
pub open spec fn n0_context(sc: Seq<BidiClass>, k: int, sos: BidiClass) -> BidiClass
    decreases k,
{
    if k <= 0 {
        sos
    } else {
        match strong_for_n0(sc[k - 1]) {
            Some(d) => d,
            None => n0_context(sc, k - 1, sos),
        }
    }
}

/// Give type `dir` to the places from `k` on that were NSM before W1, up
/// to the first one that was not.
pub open spec fn set_nsm_run(sc: Seq<BidiClass>, k: int, dir: BidiClass, nsm: Seq<bool>) -> Seq<BidiClass>
    decreases sc.len() - k,
{
    if 0 <= k < sc.len() && k < nsm.len() && nsm[k] {
        set_nsm_run(sc.update(k, dir), k + 1, dir, nsm)
    } else {
        sc
    }
}

/// Whether a strong type of direction `d` (for N0) lies strictly between
/// places `o` and `c`.
pub open spec fn has_dir_between(sc: Seq<BidiClass>, o: int, c: int, d: BidiClass) -> bool {
    exists|k: int| o < k < c && strong_for_n0(sc[k]) == Some(d)
}

/// The other direction.
pub open spec fn opposite_dir(d: BidiClass) -> BidiClass {
    if d == BidiClass::L { BidiClass::R } else { BidiClass::L }
}

/// N0 on one bracket pair: N0b when the embedding direction occurs
/// inside, N0c when only the other one does (the context before decides),
/// N0d (no change) when neither does; NSMs after each bracket follow it.
pub open spec fn n0_pair(sc: Seq<BidiClass>, pr: (usize, usize), embed: BidiClass, sos: BidiClass, nsm: Seq<bool>) -> Seq<BidiClass> {
    let o = pr.0 as int;
    let c = pr.1 as int;
    let opp = opposite_dir(embed);
    let same = has_dir_between(sc, o, c, embed);
    let other = has_dir_between(sc, o, c, opp);
    if !same && !other {
        sc
    } else {
        let dir = if same { embed } else if n0_context(sc, o, sos) == opp { opp } else { embed };
        set_nsm_run(set_nsm_run(sc.update(o, dir).update(c, dir), o + 1, dir, nsm), c + 1, dir, nsm)
    }
}

/// N0 on the pairs `prs`, one after the other.
pub open spec fn n0_fold(sc: Seq<BidiClass>, prs: Seq<(usize, usize)>, embed: BidiClass, sos: BidiClass, nsm: Seq<bool>) -> Seq<BidiClass>
    decreases prs.len(),
{
    if prs.len() == 0 {
        sc
    } else {
        n0_pair(n0_fold(sc, prs.drop_last(), embed, sos, nsm), prs.last(), embed, sos, nsm)
    }
}

/// N0 on one isolating run sequence with types `sc` (after W1-W7) and
/// characters `chars`: the pairs of BD16, in the order of their opening
/// brackets.
pub open spec fn spec_n0(sc: Seq<BidiClass>, chars: Seq<char>, embed: BidiClass, sos: BidiClass, nsm: Seq<bool>) -> Seq<BidiClass> {
    n0_fold(sc, sort_by_open(bd16_state(sc, chars, sc.len() as int).1), embed, sos, nsm)
}

/// Whether `c` takes part in bracket pairing (BD14, BD15): its canonical
/// bracket opens or closes a pair.
pub open spec fn is_bracket_char(c: char) -> bool {
    spec_bracket_pair(canonical_bracket(c) as u32) is Some || spec_is_closing_bracket(canonical_bracket(c) as u32)
}

proof fn lemma_bd16_none(sc: Seq<BidiClass>, chars: Seq<char>, j: int)
    requires
        0 <= j <= sc.len(),
        forall|q: int| 0 <= q < sc.len() ==> !is_bracket_char(#[trigger] chars[q]),
    ensures
        bd16_state(sc, chars, j) == (Seq::<(usize, char)>::empty(), Seq::<(usize, usize)>::empty(), false),
    decreases j,
{
    if j > 0 {
        lemma_bd16_none(sc, chars, j - 1);
        assert(!is_bracket_char(chars[j - 1]));
    }
}

/// N0 changes nothing in a sequence with no bracket characters.
pub proof fn lemma_n0_without_brackets(sc: Seq<BidiClass>, chars: Seq<char>, embed: BidiClass, sos: BidiClass, nsm: Seq<bool>)
    requires
        forall|q: int| 0 <= q < sc.len() ==> !is_bracket_char(#[trigger] chars[q]),
    ensures
        spec_n0(sc, chars, embed, sos, nsm) == sc,
{
    lemma_bd16_none(sc, chars, sc.len() as int);
    assert(sort_by_open(Seq::<(usize, usize)>::empty()) == Seq::<(usize, usize)>::empty());
}

/// Each position keeps its type, or takes L or R when it is a bracket (ON)
/// or was an NSM before W1.
pub open spec fn n0_changes_ok(old_sc: Seq<BidiClass>, new_sc: Seq<BidiClass>, pre_w_nsm: Seq<bool>) -> bool {
    &&& new_sc.len() == old_sc.len()
    &&& forall|k: int| 0 <= k < old_sc.len() ==> (#[trigger] new_sc[k] == old_sc[k]
        || ((new_sc[k] == BidiClass::L || new_sc[k] == BidiClass::R)
            && (old_sc[k] == BidiClass::ON || pre_w_nsm[k])))
}

/// N0: resolve paired brackets of one isolating run sequence to the
/// embedding direction or, by context, to the opposite direction.
pub fn resolve_bracket_pairs(
    sc: &mut Vec<BidiClass>,
    indices: &Vec<usize>,
    cps: &[char],
    embed_dir: BidiClass,
    sos: BidiClass,
    pre_w_nsm: &Vec<bool>,
)
    requires
        old(sc)@.len() == indices@.len(),
        pre_w_nsm@.len() == indices@.len(),
        forall|j: int| 0 <= j < indices@.len() ==> (#[trigger] indices@[j]) < cps@.len(),
        embed_dir == BidiClass::L || embed_dir == BidiClass::R,
    ensures
        final(sc)@ == spec_n0(old(sc)@, indices@.map_values(|i: usize| cps@[i as int]), embed_dir, sos, pre_w_nsm@),
        n0_changes_ok(old(sc)@, final(sc)@, pre_w_nsm@),
{
    let ghost s0 = sc@;
    let ghost chars = indices@.map_values(|i: usize| cps@[i as int]);
    let n = sc.len();
    if n == 0 {
        proof {
            assert(sort_by_open(bd16_state(s0, chars, 0).1) == Seq::<(usize, usize)>::empty());
        }
        return;
    }
    let mut open_stack: Vec<(usize, char)> = Vec::new();
    let mut pairs: Vec<(usize, usize)> = Vec::new();
    let mut j: usize = 0;
    while j < n
        invariant_except_break
            bd16_state(s0, chars, j as int) == (open_stack@, pairs@, false),
        invariant
            n == s0.len(),
            sc@ == s0,
            n == indices@.len(),
            chars == indices@.map_values(|i: usize| cps@[i as int]),
            j <= n,
            forall|k: int| 0 <= k < indices@.len() ==> (#[trigger] indices@[k]) < cps@.len(),
            forall|k: int| 0 <= k < open_stack@.len() ==> (#[trigger] open_stack@[k]).0 < j
                && s0[open_stack@[k].0 as int] == BidiClass::ON,
            forall|k: int| 0 <= k < pairs@.len() ==> (#[trigger] pairs@[k]).0 < pairs@[k].1
                && pairs@[k].1 < n && s0[pairs@[k].0 as int] == BidiClass::ON
                && s0[pairs@[k].1 as int] == BidiClass::ON,
        ensures
            pairs@ == bd16_state(s0, chars, n as int).1,
        decreases n - j,
    {
        if sc[j] != BidiClass::ON {
            j += 1;
            continue;
        }
        let raw_cp = cps[indices[j]];
        let cp = canonical_bracket_cp(raw_cp);
        proof {
            assert(chars[j as int] == raw_cp);
        }
        if bracket_pair(cp as u32).is_some() {
            if open_stack.len() >= MAX_BRACKET_STACK {
                proof {
                    lemma_bd16_stopped(s0, chars, j + 1, n as int);
                }
                break;
            }
            open_stack.push((j, cp));
        } else if is_closing_bracket(cp as u32) {
            if let Some(open_cp) = opening_bracket_for(cp as u32) {
                let ghost st = open_stack@;
                let mut found: Option<usize> = None;
                let mut k = open_stack.len();
                while k > 0
                    invariant_except_break
                        found is None,
                        last_open_with(st, open_cp, st.len() as int) == last_open_with(st, open_cp, k as int),
                    invariant
                        st == open_stack@,
                        k <= open_stack@.len(),
                    ensures
                        found is None ==> last_open_with(st, open_cp, st.len() as int) == -1,
                        found is Some ==> found->0 < open_stack@.len()
                            && found->0 == last_open_with(st, open_cp, st.len() as int),
                    decreases k,
                {
                    let ghost k_old = k;
                    k -= 1;
                    if open_stack[k].1 == open_cp {
                        found = Some(k);
                        proof {
                            assert(last_open_with(st, open_cp, k_old as int) == k as int);
                        }
                        break;
                    }
                }
                if let Some(k) = found {
                    let open_idx = open_stack[k].0;
                    pairs.push((open_idx, j));
                    open_stack.truncate(k);
                    proof {
                        let cb = canonical_bracket(chars[j as int]);
                        assert(cb == cp);
                        assert(spec_opening_bracket_for(cb as u32) == Some(open_cp));
                        assert(bd16_state(s0, chars, j as int) == (st, pairs@.drop_last(), false));
                        assert(bd16_state(s0, chars, j + 1) == (st.subrange(0, k as int), pairs@, false));
                    }
                } else {
                    proof {
                        assert(last_open_with(st, open_cp, st.len() as int) == -1);
                    }
                }
            }
        }
        j += 1;
    }
    let sorted = sort_pairs_by_open(&pairs);
    let opposite = if embed_dir == BidiClass::L { BidiClass::R } else { BidiClass::L };
    let mut p: usize = 0;
    while p < sorted.len()
        invariant
            n == s0.len(),
            n == indices@.len(),
            pre_w_nsm@.len() == n,
            sc@.len() == n,
            embed_dir == BidiClass::L || embed_dir == BidiClass::R,
            opposite == opposite_dir(embed_dir),
            forall|k: int| 0 <= k < pairs@.len() ==> (#[trigger] pairs@[k]).0 < pairs@[k].1
                && pairs@[k].1 < n && s0[pairs@[k].0 as int] == BidiClass::ON
                && s0[pairs@[k].1 as int] == BidiClass::ON,
            forall|k: int| 0 <= k < sorted@.len() ==> pairs@.contains(#[trigger] sorted@[k]),
            n0_changes_ok(s0, sc@, pre_w_nsm@),
            p <= sorted@.len(),
            sc@ == n0_fold(s0, sorted@.take(p as int), embed_dir, sos, pre_w_nsm@),
        decreases sorted@.len() - p,
    {
        let (open_idx, close_idx) = sorted[p];
        let ghost sp = sc@;
        proof {
            assert(pairs@.contains(sorted@[p as int]));
            let q = choose|q: int| 0 <= q < pairs@.len() && pairs@[q] == sorted@[p as int];
            assert(pairs@[q].0 < pairs@[q].1);
            assert(sorted@.take(p + 1).drop_last() == sorted@.take(p as int));
            assert(sorted@.take(p + 1).last() == (open_idx, close_idx));
        }
        let mut found_same = false;
        let mut found_opposite = false;
        let mut k = open_idx + 1;
        while k < close_idx
            invariant
                close_idx < n,
                sc@.len() == n,
                sc@ == sp,
                open_idx < k <= close_idx || (k == open_idx + 1 && k >= close_idx),
                embed_dir == BidiClass::L || embed_dir == BidiClass::R,
                opposite == opposite_dir(embed_dir),
                found_same == exists|q: int| open_idx < q < k && strong_for_n0(sp[q]) == Some(embed_dir),
                found_opposite == exists|q: int| open_idx < q < k && strong_for_n0(sp[q]) == Some(opposite),
            decreases close_idx - k,
        {
            match strong_type_for_n0(sc[k]) {
                Some(d) => {
                    if d == embed_dir {
                        found_same = true;
                    } else {
                        found_opposite = true;
                    }
                },
                None => {},
            }
            k += 1;
            proof {
                assert(strong_for_n0(sp[k - 1]) is Some ==> strong_for_n0(sp[k - 1]) == Some(embed_dir)
                    || strong_for_n0(sp[k - 1]) == Some(opposite));
            }
        }
        proof {
            assert(found_same == has_dir_between(sp, open_idx as int, close_idx as int, embed_dir));
            assert(found_opposite == has_dir_between(sp, open_idx as int, close_idx as int, opposite));
        }
        let bracket_dir = if found_same {
            embed_dir
        } else if found_opposite {
            let mut context_dir = sos;
            let mut k2 = open_idx;
            while k2 > 0
                invariant_except_break
                    context_dir == sos,
                    n0_context(sp, k2 as int, sos) == n0_context(sp, open_idx as int, sos),
                invariant
                    k2 <= open_idx < n,
                    sc@.len() == n,
                    sc@ == sp,
                ensures
                    context_dir == n0_context(sp, open_idx as int, sos),
                decreases k2,
            {
                k2 -= 1;
                if let Some(d) = strong_type_for_n0(sc[k2]) {
                    context_dir = d;
                    break;
                }
            }
            if context_dir == opposite {
                opposite
            } else {
                embed_dir
            }
        } else {
            p += 1;
            continue;
        };
        sc.set(open_idx, bracket_dir);
        sc.set(close_idx, bracket_dir);
        let ghost s1 = sc@;
        let mut k3 = open_idx + 1;
        while k3 < n && pre_w_nsm[k3]
            invariant
                n == s0.len(),
                pre_w_nsm@.len() == n,
                sc@.len() == n,
                open_idx < k3,
                bracket_dir == BidiClass::L || bracket_dir == BidiClass::R,
                n0_changes_ok(s0, sc@, pre_w_nsm@),
                set_nsm_run(sc@, k3 as int, bracket_dir, pre_w_nsm@) == set_nsm_run(s1, open_idx + 1, bracket_dir, pre_w_nsm@),
            decreases n - k3,
        {
            sc.set(k3, bracket_dir);
            k3 += 1;
        }
        let ghost s2 = sc@;
        k3 = close_idx + 1;
        while k3 < n && pre_w_nsm[k3]
            invariant
                n == s0.len(),
                pre_w_nsm@.len() == n,
                sc@.len() == n,
                close_idx < k3,
                bracket_dir == BidiClass::L || bracket_dir == BidiClass::R,
                n0_changes_ok(s0, sc@, pre_w_nsm@),
                set_nsm_run(sc@, k3 as int, bracket_dir, pre_w_nsm@) == set_nsm_run(s2, close_idx + 1, bracket_dir, pre_w_nsm@),
            decreases n - k3,
        {
            sc.set(k3, bracket_dir);
            k3 += 1;
        }
        proof {
            assert(s1 == sp.update(open_idx as int, bracket_dir).update(close_idx as int, bracket_dir));
        }
        p += 1;
    }
    proof {
        assert(sorted@.take(sorted@.len() as int) == sorted@);
    }
}

} // verus!

//! L2: reordering resolved levels into visual order.
use vstd::prelude::*;

use super::REMOVED_LEVEL;

verus! {

/// Positions of `lv` that X9 did not remove, in logical order.
pub open spec fn kept_indices(lv: Seq<u8>) -> Seq<usize>
    decreases lv.len(),
{
    if lv.len() == 0 {
        seq![]
    } else if lv.last() != REMOVED_LEVEL {
        kept_indices(lv.drop_last()).push((lv.len() - 1) as usize)
    } else {
        kept_indices(lv.drop_last())
    }
}

/// Levels of the positions that X9 did not remove.
pub open spec fn kept_levels(lv: Seq<u8>) -> Seq<u8>
    decreases lv.len(),
{
    if lv.len() == 0 {
        seq![]
    } else if lv.last() != REMOVED_LEVEL {
        kept_levels(lv.drop_last()).push(lv.last())
    } else {
        kept_levels(lv.drop_last())
    }
}

/// Highest value of `s` (0 when empty).
pub open spec fn seq_max(s: Seq<u8>) -> u8
    decreases s.len(),
{
    if s.len() == 0 {
        0
    } else {
        let m = seq_max(s.drop_last());
        if s.last() > m { s.last() } else { m }
    }
}

/// Lowest value of `s` (0 when empty).
pub open spec fn seq_min(s: Seq<u8>) -> u8
    decreases s.len(),
{
    if s.len() == 0 {
        0
    } else if s.len() == 1 {
        s[0]
    } else {
        let m = seq_min(s.drop_last());
        if s.last() < m { s.last() } else { m }
    }
}

/// `o` with the positions `s..e` reversed.
pub open spec fn reverse_range(o: Seq<usize>, s: int, e: int) -> Seq<usize> {
    Seq::new(o.len(), |k: int| if s <= k < e { o[s + e - 1 - k] } else { o[k] })
}

/// End of the run of levels at or above `level` that contains position `i`.
pub open spec fn run_end(lv: Seq<u8>, level: int, i: int) -> int
    decreases lv.len() - i,
{
    if 0 <= i < lv.len() && lv[i] >= level { run_end(lv, level, i + 1) } else { i }
}

/// Reverse every maximal run of levels at or above `level`, from position
/// `i` on.
pub open spec fn rev_runs(o: Seq<usize>, lv: Seq<u8>, level: int, i: int) -> Seq<usize>
    decreases lv.len() - i,
{
    if i < 0 || i >= lv.len() {
        o
    } else if lv[i] >= level {
        let e = run_end(lv, level, i);
        if e <= i || e > lv.len() {
            o
        } else {
            rev_runs(reverse_range(o, i, e), lv, level, e)
        }
    } else {
        rev_runs(o, lv, level, i + 1)
    }
}

/// L2: from `level` down to `min_odd`, reverse the runs at or above each
/// level.
pub open spec fn reorder_levels(o: Seq<usize>, lv: Seq<u8>, level: int, min_odd: int) -> Seq<usize>
    decreases level - min_odd + 1,
{
    if level < min_odd || min_odd < 1 {
        o
    } else {
        reorder_levels(rev_runs(o, lv, level, 0), lv, level - 1, min_odd)
    }
}

/// The lowest odd level at or above `m`.
pub open spec fn lowest_odd(m: u8) -> int {
    if m % 2 == 1 { m as int } else { m + 1 }
}

/// The visual order (L2) of the positions that X9 did not remove.
pub open spec fn spec_reorder(lv: Seq<u8>) -> Seq<usize> {
    let ks = kept_levels(lv);
    if ks.len() == 0 {
        seq![]
    } else {
        reorder_levels(kept_indices(lv), ks, seq_max(ks) as int, lowest_odd(seq_min(ks)))
    }
}

proof fn lemma_all_zero_parts(lv: Seq<u8>)
    requires
        forall|i: int| 0 <= i < lv.len() ==> lv[i] == 0,
    ensures
        kept_indices(lv) == Seq::new(lv.len(), |i: int| i as usize),
        kept_levels(lv) == lv,
        seq_max(lv) == 0,
        lv.len() > 0 ==> seq_min(lv) == 0,
    decreases lv.len(),
{
    if lv.len() > 0 {
        let d = lv.drop_last();
        lemma_all_zero_parts(d);
        assert(kept_indices(lv) =~= Seq::new(lv.len(), |i: int| i as usize));
        assert(kept_levels(lv) =~= lv);
    }
}

/// With every level 0 the visual order is the logical order.
pub proof fn lemma_reorder_all_zero(lv: Seq<u8>)
    requires
        forall|i: int| 0 <= i < lv.len() ==> lv[i] == 0,
    ensures
        spec_reorder(lv) == Seq::new(lv.len(), |i: int| i as usize),
{
    lemma_all_zero_parts(lv);
    if lv.len() == 0 {
        assert(spec_reorder(lv) =~= Seq::new(lv.len(), |i: int| i as usize));
    }
}

proof fn lemma_kept(lv: Seq<u8>)
    ensures
        kept_indices(lv).len() == kept_levels(lv).len(),
        forall|k: int| 0 <= k < kept_levels(lv).len() ==> #[trigger] kept_levels(lv)[k] != REMOVED_LEVEL,
    decreases lv.len(),
{
    if lv.len() > 0 {
        lemma_kept(lv.drop_last());
    }
}

proof fn lemma_run_end(lv: Seq<u8>, level: int, i: int)
    requires
        0 <= i <= lv.len(),
    ensures
        i <= run_end(lv, level, i) <= lv.len(),
        forall|k: int| i <= k < run_end(lv, level, i) ==> lv[k] >= level,
        run_end(lv, level, i) < lv.len() ==> lv[run_end(lv, level, i)] < level,
    decreases lv.len() - i,
{
    if i < lv.len() && lv[i] >= level {
        lemma_run_end(lv, level, i + 1);
    }
}

fn reverse_in_place(v: &mut Vec<usize>, s: usize, e: usize)
    requires
        s <= e <= old(v)@.len(),
    ensures
        final(v)@ == reverse_range(old(v)@, s as int, e as int),
{
    let ghost o = v@;
    let mut lo = s;
    let mut hi = e;
    while hi - lo > 1
        invariant
            s <= lo <= hi <= e,
            e <= o.len(),
            v@.len() == o.len(),
            lo - s == e - hi,
            forall|k: int| s <= k < lo ==> v@[k] == o[s + e - 1 - k],
            forall|k: int| hi <= k < e ==> v@[k] == o[s + e - 1 - k],
            forall|k: int| lo <= k < hi ==> v@[k] == o[k],
            forall|k: int| 0 <= k < s || e <= k < o.len() ==> v@[k] == o[k],
        decreases hi - lo,
    {
        let t = v[lo];
        let u = v[hi - 1];
        v[lo] = u;
        v[hi - 1] = t;
        lo += 1;
        hi -= 1;
    }
    proof {
        assert(v@ == reverse_range(o, s as int, e as int));
    }
}

fn reverse_runs_at(order: &mut Vec<usize>, item_levels: &Vec<u8>, level: u8)
    requires
        old(order)@.len() == item_levels@.len(),
    ensures
        final(order)@ == rev_runs(old(order)@, item_levels@, level as int, 0),
{
    let ghost target = rev_runs(order@, item_levels@, level as int, 0);
    let n = item_levels.len();
    let mut i: usize = 0;
    while i < n
        invariant
            n == item_levels@.len(),
            order@.len() == n,
            i <= n,
            rev_runs(order@, item_levels@, level as int, i as int) == target,
        decreases n - i,
    {
        if item_levels[i] >= level {
            let start = i;
            while i < n && item_levels[i] >= level
                invariant
                    n == item_levels@.len(),
                    start <= i <= n,
                    forall|k: int| start <= k < i ==> item_levels@[k] >= level,
                decreases n - i,
            {
                i += 1;
            }
            proof {
                lemma_run_end(item_levels@, level as int, start as int);
                lemma_run_end_eq(item_levels@, level as int, start as int, i as int);
            }
            reverse_in_place(order, start, i);
        } else {
            i += 1;
        }
    }
}

proof fn lemma_run_end_eq(lv: Seq<u8>, level: int, s: int, e: int)
    requires
        0 <= s < e <= lv.len(),
        forall|k: int| s <= k < e ==> lv[k] >= level,
        e == lv.len() || lv[e] < level,
    ensures
        run_end(lv, level, s) == e,
    decreases e - s,
{
    if s + 1 < e {
        lemma_run_end_eq(lv, level, s + 1, e);
    } else {
        assert(run_end(lv, level, e) == e);
    }
}

/// L2: the visual order of the positions whose level is not the removed
/// level: runs at each level from the highest down to the lowest odd level
/// are reversed.
pub fn compute_reorder(levels: &Vec<u8>) -> (order: Vec<usize>)
    ensures
        order@ == spec_reorder(levels@),
{
    let n = levels.len();
    let mut order: Vec<usize> = Vec::new();
    let mut item_levels: Vec<u8> = Vec::new();
    let mut i: usize = 0;
    while i < n
        invariant
            n == levels@.len(),
            i <= n,
            order@ == kept_indices(levels@.take(i as int)),
            item_levels@ == kept_levels(levels@.take(i as int)),
        decreases n - i,
    {
        proof {
            assert(levels@.take(i + 1).drop_last() == levels@.take(i as int));
        }
        if levels[i] != REMOVED_LEVEL {
            order.push(i);
            item_levels.push(levels[i]);
        }
        i += 1;
    }
    proof {
        assert(levels@.take(n as int) == levels@);
        lemma_kept(levels@);
    }
    if item_levels.len() == 0 {
        return Vec::new();
    }
    let m = item_levels.len();
    let mut max_level: u8 = item_levels[0];
    let mut min_level: u8 = item_levels[0];
    let mut j: usize = 1;
    proof {
        assert(item_levels@.take(1).drop_last() == item_levels@.take(0));
        assert(seq_max(item_levels@.take(0)) == 0);
        assert(item_levels@.take(1).last() == item_levels@[0]);
    }
    while j < m
        invariant
            m == item_levels@.len(),
            1 <= j <= m,
            max_level == seq_max(item_levels@.take(j as int)),
            min_level == seq_min(item_levels@.take(j as int)),
        decreases m - j,
    {
        proof {
            assert(item_levels@.take(j + 1).drop_last() == item_levels@.take(j as int));
        }
        if item_levels[j] > max_level {
            max_level = item_levels[j];
        }
        if item_levels[j] < min_level {
            min_level = item_levels[j];
        }
        j += 1;
    }
    proof {
        assert(item_levels@.take(m as int) == item_levels@);
        assert(min_level != REMOVED_LEVEL) by {
            lemma_min_member(item_levels@);
        }
    }
    let min_odd: u8 = if min_level % 2 == 1 { min_level } else { min_level + 1 };
    let ghost target = spec_reorder(levels@);
    let mut level: u8 = max_level;
    while level >= min_odd
        invariant
            order@.len() == item_levels@.len(),
            min_odd >= 1,
            reorder_levels(order@, item_levels@, level as int, min_odd as int) == target,
        decreases level,
    {
        proof {
            lemma_rev_runs_len(order@, item_levels@, level as int, 0);
        }
        reverse_runs_at(&mut order, &item_levels, level);
        level -= 1;
    }
    order
}

proof fn lemma_rev_runs_len(o: Seq<usize>, lv: Seq<u8>, level: int, i: int)
    ensures
        rev_runs(o, lv, level, i).len() == o.len(),
    decreases lv.len() - i,
{
    if 0 <= i < lv.len() {
        if lv[i] >= level {
            let e = run_end(lv, level, i);
            if e > i && e <= lv.len() {
                lemma_rev_runs_len(reverse_range(o, i, e), lv, level, e);
            }
        } else {
            lemma_rev_runs_len(o, lv, level, i + 1);
        }
    }
}

proof fn lemma_min_member(s: Seq<u8>)
    requires
        s.len() > 0,
    ensures
        exists|k: int| 0 <= k < s.len() && s[k] == seq_min(s),
    decreases s.len(),
{
    if s.len() > 1 {
        lemma_min_member(s.drop_last());
        let k = choose|k: int| 0 <= k < s.drop_last().len() && s.drop_last()[k] == seq_min(s.drop_last());
        assert(s[k] == s.drop_last()[k]);
        if s.last() < seq_min(s.drop_last()) {
            assert(s[s.len() - 1] == seq_min(s));
        }
    } else {
        assert(s[0] == seq_min(s));
    }
}


proof fn lemma_reverse_range_multiset(o: Seq<usize>, s: int, e: int)
    requires
        0 <= s <= e <= o.len(),
    ensures
        reverse_range(o, s, e).to_multiset() == o.to_multiset(),
{
    let a = o.subrange(0, s);
    let m = o.subrange(s, e);
    let b = o.subrange(e, o.len() as int);
    assert(reverse_range(o, s, e) =~= a + m.reverse() + b);
    assert(o =~= a + m + b);
    m.lemma_reverse_to_multiset();
    vstd::seq_lib::lemma_multiset_commutative(a + m.reverse(), b);
    vstd::seq_lib::lemma_multiset_commutative(a, m.reverse());
    vstd::seq_lib::lemma_multiset_commutative(a + m, b);
    vstd::seq_lib::lemma_multiset_commutative(a, m);
}

proof fn lemma_rev_runs_multiset(o: Seq<usize>, lv: Seq<u8>, level: int, i: int)
    requires
        o.len() == lv.len(),
    ensures
        rev_runs(o, lv, level, i).to_multiset() == o.to_multiset(),
        rev_runs(o, lv, level, i).len() == o.len(),
    decreases lv.len() - i,
{
    lemma_rev_runs_len(o, lv, level, i);
    if 0 <= i < lv.len() {
        if lv[i] >= level {
            let e = run_end(lv, level, i);
            if e > i && e <= lv.len() {
                lemma_reverse_range_multiset(o, i, e);
                lemma_rev_runs_multiset(reverse_range(o, i, e), lv, level, e);
            }
        } else {
            lemma_rev_runs_multiset(o, lv, level, i + 1);
        }
    }
}

proof fn lemma_reorder_levels_multiset(o: Seq<usize>, lv: Seq<u8>, level: int, min_odd: int)
    requires
        o.len() == lv.len(),
    ensures
        reorder_levels(o, lv, level, min_odd).to_multiset() == o.to_multiset(),
        reorder_levels(o, lv, level, min_odd).len() == o.len(),
    decreases level - min_odd + 1,
{
    if !(level < min_odd || min_odd < 1) {
        lemma_rev_runs_multiset(o, lv, level, 0);
        lemma_reorder_levels_multiset(rev_runs(o, lv, level, 0), lv, level - 1, min_odd);
    }
}

proof fn lemma_kept_indices(lv: Seq<u8>)
    requires
        lv.len() <= usize::MAX,
    ensures
        forall|k: int| 0 <= k < kept_indices(lv).len() ==> {
            let p = #[trigger] kept_indices(lv)[k];
            p < lv.len() && lv[p as int] != REMOVED_LEVEL
        },
        forall|a: int, b: int| 0 <= a < b < kept_indices(lv).len() ==> kept_indices(lv)[a] < kept_indices(lv)[b],
        forall|p: int| 0 <= p < lv.len() && lv[p] != REMOVED_LEVEL ==> kept_indices(lv).contains(p as usize),
    decreases lv.len(),
{
    if lv.len() > 0 {
        let d = lv.drop_last();
        lemma_kept_indices(d);
        let kd = kept_indices(d);
        let kl = kept_indices(lv);
        assert forall|k: int| 0 <= k < kl.len() implies {
            let p = #[trigger] kl[k];
            p < lv.len() && lv[p as int] != REMOVED_LEVEL
        } by {
            if k < kd.len() {
                assert(kl[k] == kd[k]);
                assert(d[kd[k] as int] == lv[kd[k] as int]);
            }
        }
        assert forall|a: int, b: int| 0 <= a < b < kl.len() implies kl[a] < kl[b] by {
            if b < kd.len() {
                assert(kl[a] == kd[a] && kl[b] == kd[b]);
            } else {
                assert(kl[a] == kd[a]);
            }
        }
        assert forall|p: int| 0 <= p < lv.len() && lv[p] != REMOVED_LEVEL implies kept_indices(lv).contains(p as usize) by {
            if p < lv.len() - 1 {
                assert(d[p] == lv[p]);
                let k = choose|k: int| 0 <= k < kept_indices(d).len() && kept_indices(d)[k] == p as usize;
                assert(kept_indices(lv)[k] == p as usize);
            } else {
                assert(kept_indices(lv).last() == p as usize);
            }
        }
    }
}

/// L2 only rearranges: the visual order holds each position that X9 did
/// not remove exactly once, and no other.
pub proof fn lemma_reorder_permutation(lv: Seq<u8>)
    requires
        lv.len() <= usize::MAX,
    ensures
        spec_reorder(lv).to_multiset() == kept_indices(lv).to_multiset(),
        spec_reorder(lv).len() == kept_indices(lv).len(),
        forall|k: int| 0 <= k < spec_reorder(lv).len() ==> {
            let p = #[trigger] spec_reorder(lv)[k];
            p < lv.len() && lv[p as int] != REMOVED_LEVEL
        },
        forall|p: int| 0 <= p < lv.len() && lv[p] != REMOVED_LEVEL ==> spec_reorder(lv).contains(p as usize),
        forall|a: int, b: int| 0 <= a < b < spec_reorder(lv).len() ==> spec_reorder(lv)[a] != spec_reorder(lv)[b],
{
    lemma_kept(lv);
    lemma_kept_indices(lv);
    let ks = kept_levels(lv);
    let ki = kept_indices(lv);
    let r = spec_reorder(lv);
    if ks.len() > 0 {
        lemma_reorder_levels_multiset(ki, ks, seq_max(ks) as int, lowest_odd(seq_min(ks)));
    } else {
        assert(ki =~= Seq::<usize>::empty());
        assert(r =~= Seq::<usize>::empty());
    }
    assert forall|k: int| 0 <= k < r.len() implies {
        let p = #[trigger] r[k];
        p < lv.len() && lv[p as int] != REMOVED_LEVEL
    } by {
        vstd::seq_lib::to_multiset_contains(r, r[k]);
        vstd::seq_lib::to_multiset_contains(ki, r[k]);
        assert(r.contains(r[k]));
        let j = choose|j: int| 0 <= j < ki.len() && ki[j] == r[k];
    }
    assert forall|p: int| 0 <= p < lv.len() && lv[p] != REMOVED_LEVEL implies r.contains(p as usize) by {
        vstd::seq_lib::to_multiset_contains(r, p as usize);
        vstd::seq_lib::to_multiset_contains(ki, p as usize);
    }
    assert forall|a: int, b: int| 0 <= a < b < r.len() implies r[a] != r[b] by {
        if r[a] == r[b] {
            ki.lemma_multiset_has_no_duplicates();
            assert(ki.no_duplicates()) by {
                assert forall|x: int, y: int| 0 <= x < ki.len() && 0 <= y < ki.len() && x != y implies ki[x] != ki[y] by {
                    if x < y {} else {}
                }
            }
            lemma_count_two(r, a, b);
        }
    }
}

proof fn lemma_count_two(s: Seq<usize>, a: int, b: int)
    requires
        0 <= a < b < s.len(),
        s[a] == s[b],
    ensures
        s.to_multiset().count(s[a]) >= 2,
    decreases s.len(),
{
    broadcast use vstd::seq_lib::group_seq_properties;
    let l = s.last();
    let d = s.drop_last();
    assert(s == d.push(l));
    vstd::seq_lib::to_multiset_build(d, l);
    if b < s.len() - 1 {
        lemma_count_two(d, a, b);
    } else {
        vstd::seq_lib::to_multiset_contains(d, s[a]);
        assert(d[a] == s[a]);
        assert(d.contains(s[a]));
    }
}

} // verus!

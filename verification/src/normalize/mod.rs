//! UAX #15: the normalization forms NFD, NFC, NFKD and NFKC.
//!
//! Decompose each character (Hangul syllables algorithmically, others by
//! the canonical or compatibility mapping, fully), put combining marks in
//! canonical order (a stable bubble sort by Canonical_Combining_Class that
//! never moves a starter), then for NFC and NFKC compose.
use vstd::prelude::*;

use crate::data::normalization::{
    canonical_composition, canonical_decomposition, ccc, compatibility_decomposition, ucd_canonical_decomposition,
    ucd_ccc, ucd_compatibility_decomposition, ucd_compose,
};
use crate::text::{char_from_u32, chars_of, string_from_chars};

verus! {

pub const S_BASE: u32 = 0xAC00;
pub const L_BASE: u32 = 0x1100;
pub const V_BASE: u32 = 0x1161;
pub const T_BASE: u32 = 0x11A7;
pub const L_COUNT: u32 = 19;
pub const V_COUNT: u32 = 21;
pub const T_COUNT: u32 = 28;
pub const N_COUNT: u32 = 588;
pub const S_COUNT: u32 = 11172;

pub open spec fn is_hangul_syllable(c: char) -> bool {
    S_BASE <= (c as u32) < S_BASE + S_COUNT
}

/// The algorithmic decomposition of a Hangul syllable: L V, or L V T.
pub open spec fn hangul_parts(c: char) -> Seq<char> {
    let s = (c as u32) - S_BASE;
    let l = (L_BASE + s / (N_COUNT as int)) as u32;
    let v = (V_BASE + (s % (N_COUNT as int)) / (T_COUNT as int)) as u32;
    let t = (T_BASE + s % (T_COUNT as int)) as u32;
    if t != T_BASE { seq![l as char, v as char, t as char] } else { seq![l as char, v as char] }
}

/// The full decomposition of `c`.
pub open spec fn decompose_char(c: char, compat: bool) -> Seq<char> {
    if is_hangul_syllable(c) {
        hangul_parts(c)
    } else if compat {
        ucd_compatibility_decomposition(c)
    } else {
        ucd_canonical_decomposition(c)
    }
}

/// The decompositions of the first `k` characters of `cs`, in order.
pub open spec fn decompose_prefix(cs: Seq<char>, compat: bool, k: int) -> Seq<char>
    decreases k,
{
    if k <= 0 { Seq::empty() } else { decompose_prefix(cs, compat, k - 1) + decompose_char(cs[k - 1], compat) }
}

/// One bubble pass from position `i`: swap adjacent marks whose classes are
/// out of order (the second non-zero and lower). Also reports whether it
/// swapped.
pub open spec fn bubble_pass(s: Seq<char>, i: int) -> (Seq<char>, bool)
    decreases s.len() - i,
{
    if i < 0 || i + 1 >= s.len() {
        (s, false)
    } else {
        let a = ucd_ccc(s[i]);
        let b = ucd_ccc(s[i + 1]);
        if a > b && b != 0 {
            let t = s.update(i, s[i + 1]).update(i + 1, s[i]);
            (bubble_pass(t, i + 1).0, true)
        } else {
            bubble_pass(s, i + 1)
        }
    }
}

/// The sum of position times class over the first `k` characters; each
/// swap of a pass raises it.
pub open spec fn potential(s: Seq<char>, k: int) -> int
    decreases k,
{
    if k <= 0 || k > s.len() { 0 } else { potential(s, k - 1) + (k - 1) * ucd_ccc(s[k - 1]) }
}

pub open spec fn pot(s: Seq<char>) -> int {
    potential(s, s.len() as int)
}

pub proof fn lemma_potential_bound(s: Seq<char>, k: int)
    requires
        0 <= k <= s.len(),
    ensures
        0 <= potential(s, k) <= 255 * k * k,
    decreases k,
{
    if k > 0 {
        lemma_potential_bound(s, k - 1);
        let c = ucd_ccc(s[k - 1]) as int;
        assert((k - 1) * c <= (k - 1) * 255) by (nonlinear_arith)
            requires 0 <= c <= 255, k >= 1;
        assert(255 * (k - 1) * (k - 1) + (k - 1) * 255 <= 255 * k * k) by (nonlinear_arith)
            requires k >= 1;
        assert(0 <= (k - 1) * c) by (nonlinear_arith)
            requires 0 <= c, k >= 1;
    }
}

pub proof fn lemma_potential_swap(s: Seq<char>, i: int, k: int)
    requires
        0 <= i,
        i + 1 < s.len(),
        0 <= k <= s.len(),
    ensures
        k <= i ==> potential(s.update(i, s[i + 1]).update(i + 1, s[i]), k) == potential(s, k),
        k >= i + 2 ==> potential(s.update(i, s[i + 1]).update(i + 1, s[i]), k)
            == potential(s, k) + (ucd_ccc(s[i]) - ucd_ccc(s[i + 1])),
    decreases k,
{
    let t = s.update(i, s[i + 1]).update(i + 1, s[i]);
    if k > 0 {
        if k <= i {
            lemma_potential_swap(s, i, k - 1);
        } else if k == i + 2 {
            let a = ucd_ccc(s[i]) as int;
            let b = ucd_ccc(s[i + 1]) as int;
            lemma_potential_swap(s, i, i);
            assert(potential(t, i + 1) == potential(t, i) + i * b);
            assert(potential(s, i + 1) == potential(s, i) + i * a);
            assert(potential(t, i + 2) == potential(t, i + 1) + (i + 1) * a);
            assert(potential(s, i + 2) == potential(s, i + 1) + (i + 1) * b);
            assert(i * b + (i + 1) * a == i * a + (i + 1) * b + (a - b)) by (nonlinear_arith);
        } else if k > i + 2 {
            lemma_potential_swap(s, i, k - 1);
        }
    }
}

pub proof fn lemma_bubble_pass(s: Seq<char>, i: int)
    requires
        0 <= i,
    ensures
        bubble_pass(s, i).0.len() == s.len(),
        !bubble_pass(s, i).1 ==> bubble_pass(s, i).0 == s,
        bubble_pass(s, i).1 ==> pot(bubble_pass(s, i).0) > pot(s),
    decreases s.len() - i,
{
    if i + 1 < s.len() {
        let a = ucd_ccc(s[i]);
        let b = ucd_ccc(s[i + 1]);
        if a > b && b != 0 {
            let t = s.update(i, s[i + 1]).update(i + 1, s[i]);
            lemma_potential_swap(s, i, s.len() as int);
            lemma_bubble_pass(t, i + 1);
        } else {
            lemma_bubble_pass(s, i + 1);
        }
    }
}

/// Canonical ordering: bubble passes until one swaps nothing.
pub open spec fn canonical_order(s: Seq<char>) -> Seq<char>
    decreases 255 * s.len() * s.len() - pot(s),
{
    let (t, changed) = bubble_pass(s, 0);
    if !changed {
        s
    } else {
        proof {
            lemma_bubble_pass(s, 0);
            lemma_potential_bound(t, t.len() as int);
        }
        canonical_order(t)
    }
}

/// Canonical order (UAX #15): no mark directly follows a character of a
/// higher non-zero combining class.
pub open spec fn canonically_ordered(s: Seq<char>) -> bool {
    forall|j: int| 0 <= j && j + 1 < s.len() ==>
        !(ucd_ccc(#[trigger] s[j]) > ucd_ccc(s[j + 1]) && ucd_ccc(s[j + 1]) != 0)
}

proof fn lemma_no_swap_ordered(s: Seq<char>, i: int)
    requires
        0 <= i,
        !bubble_pass(s, i).1,
    ensures
        forall|j: int| i <= j && j + 1 < s.len() ==>
            !(ucd_ccc(#[trigger] s[j]) > ucd_ccc(s[j + 1]) && ucd_ccc(s[j + 1]) != 0),
    decreases s.len() - i,
{
    if i + 1 < s.len() {
        lemma_no_swap_ordered(s, i + 1);
    }
}

/// Canonical ordering leaves the characters in canonical order, and keeps
/// their number.
pub proof fn lemma_canonical_order(s: Seq<char>)
    ensures
        canonically_ordered(canonical_order(s)),
        canonical_order(s).len() == s.len(),
    decreases 255 * s.len() * s.len() - pot(s),
{
    let (t, changed) = bubble_pass(s, 0);
    lemma_bubble_pass(s, 0);
    if !changed {
        lemma_no_swap_ordered(s, 0);
    } else {
        lemma_potential_bound(t, t.len() as int);
        lemma_canonical_order(t);
    }
}

/// The decomposition of `cs`, canonically ordered.
pub open spec fn decomposed(cs: Seq<char>, compat: bool) -> Seq<char> {
    canonical_order(decompose_prefix(cs, compat, cs.len() as int))
}

/// Hangul composition: L + V to LV, LV + T to LVT.
pub open spec fn hangul_compose(a: char, b: char) -> Option<char> {
    let x = a as u32;
    let y = b as u32;
    if L_BASE <= x < L_BASE + L_COUNT && V_BASE <= y < V_BASE + V_COUNT {
        Some((S_BASE + (x - L_BASE) * (N_COUNT as int) + (y - V_BASE) * (T_COUNT as int)) as u32 as char)
    } else if S_BASE <= x < S_BASE + S_COUNT && (x - S_BASE) % (T_COUNT as int) == 0 && T_BASE < y < T_BASE + T_COUNT {
        Some((x + (y - T_BASE)) as u32 as char)
    } else {
        None
    }
}

/// The composite of the pair, Hangul first.
pub open spec fn compose_pair(a: char, b: char) -> Option<char> {
    match hangul_compose(a, b) {
        Some(x) => Some(x),
        None => ucd_compose(a, b),
    }
}

/// Whether some position strictly between `i` and `j` is not consumed.
pub open spec fn unconsumed_between(cons: Seq<bool>, i: int, j: int) -> bool {
    exists|k: int| i < k < j && !cons[k]
}

/// The composition loop of one starter at `i`, from `j` on: the composed
/// starter and the consumed marks.
pub open spec fn compose_from(buf: Seq<char>, cons: Seq<bool>, i: int, j: int, starter: char, last: u8) -> (char, Seq<bool>)
    decreases buf.len() - j,
{
    if j < 0 || j >= buf.len() {
        (starter, cons)
    } else if cons[j] {
        compose_from(buf, cons, i, j + 1, starter, last)
    } else {
        let c = buf[j];
        let cc = ucd_ccc(c);
        let blocked = if cc == 0 {
            last > 0 || (j != i + 1 && unconsumed_between(cons, i, j))
        } else {
            last >= cc
        };
        if !blocked && compose_pair(starter, c).is_some() {
            compose_from(buf, cons.update(j, true), i, j + 1, compose_pair(starter, c).unwrap(), last)
        } else if cc == 0 {
            (starter, cons)
        } else {
            compose_from(buf, cons, i, j + 1, starter, cc)
        }
    }
}

/// Canonical composition from position `i` on, after `out`.
pub open spec fn compose_run(buf: Seq<char>, cons: Seq<bool>, i: int, out: Seq<char>) -> Seq<char>
    decreases buf.len() - i,
{
    if i < 0 || i >= buf.len() {
        out
    } else if cons[i] {
        compose_run(buf, cons, i + 1, out)
    } else if ucd_ccc(buf[i]) != 0 {
        compose_run(buf, cons, i + 1, out.push(buf[i]))
    } else {
        let (st, cons2) = compose_from(buf, cons, i, i + 1, buf[i], 0);
        compose_run(buf, cons2, i + 1, out.push(st))
    }
}

/// Canonical composition of `buf`.
pub open spec fn composed(buf: Seq<char>) -> Seq<char> {
    compose_run(buf, Seq::new(buf.len(), |_k: int| false), 0, Seq::empty())
}

fn hangul_parts_exec(c: char) -> (r: Vec<char>)
    requires
        is_hangul_syllable(c),
    ensures
        r@ == hangul_parts(c),
{
    let s = (c as u32) - S_BASE;
    let l = L_BASE + s / N_COUNT;
    let v = V_BASE + (s % N_COUNT) / T_COUNT;
    let t = T_BASE + s % T_COUNT;
    proof {
        assert(s / N_COUNT <= 18) by (nonlinear_arith) requires s < 11172;
    }
    let mut r: Vec<char> = Vec::new();
    match (char_from_u32(l), char_from_u32(v)) {
        (Some(lc), Some(vc)) => {
            r.push(lc);
            r.push(vc);
        },
        _ => {
            proof {
                assert(false);
            }
        },
    }
    if t != T_BASE {
        match char_from_u32(t) {
            Some(tc) => r.push(tc),
            None => {
                proof {
                    assert(false);
                }
            },
        }
    }
    r
}

fn decompose_exec(cs: &Vec<char>, compat: bool) -> (r: Vec<char>)
    ensures
        r@ == decompose_prefix(cs@, compat, cs@.len() as int),
{
    let mut r: Vec<char> = Vec::new();
    let mut i: usize = 0;
    while i < cs.len()
        invariant
            i <= cs@.len(),
            r@ == decompose_prefix(cs@, compat, i as int),
        decreases cs@.len() - i,
    {
        let c = cs[i];
        let d = if S_BASE <= (c as u32) && (c as u32) < S_BASE + S_COUNT {
            hangul_parts_exec(c)
        } else if compat {
            compatibility_decomposition(c)
        } else {
            canonical_decomposition(c)
        };
        let mut k: usize = 0;
        let ghost before = r@;
        while k < d.len()
            invariant
                k <= d@.len(),
                r@ == before + d@.take(k as int),
            decreases d@.len() - k,
        {
            r.push(d[k]);
            k += 1;
            proof {
                assert(d@.take(k as int) == d@.take(k - 1).push(d@[k - 1]));
            }
        }
        proof {
            assert(d@.take(d@.len() as int) == d@);
        }
        i += 1;
    }
    r
}

fn bubble_pass_exec(v: &mut Vec<char>) -> (changed: bool)
    ensures
        (final(v)@, changed) == bubble_pass(old(v)@, 0),
{
    let n = v.len();
    if n < 2 {
        return false;
    }
    let ghost s0 = v@;
    let mut changed = false;
    let mut i: usize = 0;
    while i < n - 1
        invariant
            n == v@.len(),
            n >= 2,
            i <= n - 1,
            ({
                let (r, ch) = bubble_pass(v@, i as int);
                (r, ch || changed) == bubble_pass(s0, 0)
            }),
        decreases n - 1 - i,
    {
        let a = ccc(v[i]);
        let b = ccc(v[i + 1]);
        if a > b && b != 0 {
            let x = v[i];
            let y = v[i + 1];
            v.set(i, y);
            v.set(i + 1, x);
            changed = true;
        }
        i += 1;
    }
    changed
}

fn canonical_order_exec(v: &mut Vec<char>)
    ensures
        final(v)@ == canonical_order(old(v)@),
{
    let ghost s0 = v@;
    loop
        invariant
            canonical_order(v@) == canonical_order(s0),
        ensures
            v@ == canonical_order(s0),
        decreases 255 * v@.len() * v@.len() - pot(v@),
    {
        let ghost before = v@;
        let changed = bubble_pass_exec(v);
        proof {
            lemma_bubble_pass(before, 0);
            lemma_potential_bound(v@, v@.len() as int);
            lemma_potential_bound(before, before.len() as int);
            if !changed {
                assert(canonical_order(before) == before);
                assert(v@ == before);
            } else {
                assert(canonical_order(before) == canonical_order(v@));
            }
        }
        if !changed {
            break;
        }
    }
}

fn hangul_compose_exec(a: char, b: char) -> (r: Option<char>)
    ensures
        r == hangul_compose(a, b),
{
    let x = a as u32;
    let y = b as u32;
    if L_BASE <= x && x < L_BASE + L_COUNT && V_BASE <= y && y < V_BASE + V_COUNT {
        let u = S_BASE + (x - L_BASE) * N_COUNT + (y - V_BASE) * T_COUNT;
        proof {
            assert((x - L_BASE) * N_COUNT <= 18 * 588) by (nonlinear_arith) requires x - L_BASE <= 18;
            assert((y - V_BASE) * T_COUNT <= 20 * 28) by (nonlinear_arith) requires y - V_BASE <= 20;
        }
        return char_from_u32(u);
    }
    if S_BASE <= x && x < S_BASE + S_COUNT && (x - S_BASE) % T_COUNT == 0 && T_BASE < y && y < T_BASE + T_COUNT {
        return char_from_u32(x + (y - T_BASE));
    }
    None
}

fn compose_pair_exec(a: char, b: char) -> (r: Option<char>)
    ensures
        r == compose_pair(a, b),
{
    match hangul_compose_exec(a, b) {
        Some(x) => Some(x),
        None => canonical_composition(a, b),
    }
}

fn has_unconsumed_between(cons: &Vec<bool>, i: usize, j: usize) -> (r: bool)
    requires
        i < j <= cons@.len(),
    ensures
        r == unconsumed_between(cons@, i as int, j as int),
{
    let mut k = i + 1;
    while k < j
        invariant
            i < k <= j <= cons@.len(),
            forall|m: int| i < m < k ==> cons@[m],
        decreases j - k,
    {
        if !cons[k] {
            return true;
        }
        k += 1;
    }
    false
}

fn compose_exec(buf: &Vec<char>) -> (r: Vec<char>)
    ensures
        r@ == composed(buf@),
{
    let n = buf.len();
    let mut cons: Vec<bool> = Vec::new();
    while cons.len() < n
        invariant
            cons@.len() <= n,
            forall|k: int| 0 <= k < cons@.len() ==> !cons@[k],
        decreases n - cons@.len(),
    {
        cons.push(false);
    }
    proof {
        assert(cons@ == Seq::new(n as nat, |_k: int| false));
    }
    let mut out: Vec<char> = Vec::new();
    let mut i: usize = 0;
    while i < n
        invariant
            n == buf@.len(),
            cons@.len() == n,
            i <= n,
            compose_run(buf@, cons@, i as int, out@) == composed(buf@),
        decreases n - i,
    {
        if cons[i] {
            i += 1;
            continue;
        }
        if ccc(buf[i]) != 0 {
            out.push(buf[i]);
            i += 1;
            continue;
        }
        let ghost cons0 = cons@;
        let mut starter = buf[i];
        let mut last: u8 = 0;
        let mut j = i + 1;
        while j < n
            invariant
                n == buf@.len(),
                cons@.len() == n,
                i < j <= n,
                compose_from(buf@, cons@, i as int, j as int, starter, last)
                    == compose_from(buf@, cons0, i as int, i + 1, buf@[i as int], 0),
            ensures
                compose_from(buf@, cons@, i as int, j as int, starter, last) == (starter, cons@),
                cons@.len() == n,
            decreases n - j,
        {
            if cons[j] {
                j += 1;
                continue;
            }
            let c = buf[j];
            let cc = ccc(c);
            let blocked = if cc == 0 {
                last > 0 || (j != i + 1 && has_unconsumed_between(&cons, i, j))
            } else {
                last >= cc
            };
            if !blocked {
                match compose_pair_exec(starter, c) {
                    Some(x) => {
                        starter = x;
                        cons.set(j, true);
                        j += 1;
                        continue;
                    },
                    None => {},
                }
            }
            if cc == 0 {
                break;
            }
            last = cc;
            j += 1;
        }
        out.push(starter);
        i += 1;
    }
    out
}

fn normalize_chars(s: &str, compat: bool, compose: bool) -> (r: String)
    ensures
        r@ == (if compose { composed(decomposed(s@, compat)) } else { decomposed(s@, compat) }),
{
    let cs = chars_of(s);
    let mut d = decompose_exec(&cs, compat);
    canonical_order_exec(&mut d);
    if compose {
        let c = compose_exec(&d);
        let n = c.len();
        let r = string_from_chars(&c, 0, n);
        proof {
            assert(c@.subrange(0, n as int) == c@);
        }
        r
    } else {
        let n = d.len();
        let r = string_from_chars(&d, 0, n);
        proof {
            assert(d@.subrange(0, n as int) == d@);
        }
        r
    }
}


/// The composite of `st` with each of `ms` in turn, if every step has a
/// composite.
pub open spec fn compose_chain(st: char, ms: Seq<char>) -> Option<char>
    decreases ms.len(),
{
    if ms.len() == 0 {
        Some(st)
    } else {
        match compose_pair(st, ms[0]) {
            Some(x) => compose_chain(x, ms.drop_first()),
            None => None,
        }
    }
}

proof fn lemma_compose_from_chain(buf: Seq<char>, cons: Seq<bool>, i: int, j: int, st: char, y: char)
    requires
        0 <= i < j <= buf.len(),
        cons.len() == buf.len(),
        forall|t: int| i < t < j ==> #[trigger] cons[t],
        forall|t: int| j <= t < buf.len() ==> !#[trigger] cons[t],
        compose_chain(st, buf.subrange(j, buf.len() as int)) == Some(y),
    ensures
        compose_from(buf, cons, i, j, st, 0).0 == y,
        compose_from(buf, cons, i, j, st, 0).1.len() == buf.len(),
        forall|t: int| j <= t < buf.len() ==> #[trigger] compose_from(buf, cons, i, j, st, 0).1[t],
        forall|t: int| 0 <= t < j ==> #[trigger] compose_from(buf, cons, i, j, st, 0).1[t] == cons[t],
    decreases buf.len() - j,
{
    let rest = buf.subrange(j, buf.len() as int);
    if j < buf.len() {
        assert(rest[0] == buf[j]);
        assert(rest.drop_first() =~= buf.subrange(j + 1, buf.len() as int));
        let x = compose_pair(st, buf[j]).unwrap();
        let c2 = cons.update(j, true);
        assert forall|t: int| j + 1 <= t < buf.len() implies !#[trigger] c2[t] by {
            assert(!cons[t]);
        }
        assert forall|t: int| i < t < j + 1 implies #[trigger] c2[t] by {
            if t < j {
                assert(cons[t]);
            }
        }
        assert(!unconsumed_between(cons, i, j));
        assert(c2.len() == buf.len());
        assert(compose_chain(x, buf.subrange(j + 1, buf.len() as int)) == Some(y));
        lemma_compose_from_chain(buf, c2, i, j + 1, x, y);
    } else {
        assert(rest.len() == 0);
    }
}

proof fn lemma_compose_run_consumed(buf: Seq<char>, cons: Seq<bool>, i: int, out: Seq<char>)
    requires
        0 <= i,
        forall|t: int| i <= t < buf.len() ==> #[trigger] cons[t],
    ensures
        compose_run(buf, cons, i, out) == out,
    decreases buf.len() - i,
{
    if i < buf.len() {
        lemma_compose_run_consumed(buf, cons, i + 1, out);
    }
}

/// Canonical composition: a starter followed by characters that compose
/// with it one after the other composes into a single character. A
/// character that was composed away blocks nothing, so marks of the same
/// combining class compose in turn (a + U+0302 + U+0301 gives U+1EA5), and
/// a Hangul L V T sequence gives its LVT syllable.
pub proof fn lemma_marks_compose_in_turn(st: char, ms: Seq<char>, y: char)
    requires
        ucd_ccc(st) == 0,
        compose_chain(st, ms) == Some(y),
    ensures
        composed(seq![st] + ms) == seq![y],
{
    let buf = seq![st] + ms;
    let cons = Seq::new(buf.len(), |_k: int| false);
    assert(buf.subrange(1, buf.len() as int) =~= ms);
    lemma_compose_from_chain(buf, cons, 0, 1, st, y);
    let r = compose_from(buf, cons, 0, 1, buf[0], 0);
    lemma_compose_run_consumed(buf, r.1, 1, Seq::<char>::empty().push(y));
    assert(Seq::<char>::empty().push(y) =~= seq![y]);
}

/// Canonical composition: a mark is blocked from the starter by an earlier
/// mark that stays, of the same or a higher combining class, so it does
/// not compose even when it has a composite with the starter.
pub proof fn lemma_mark_blocked_by_mark(st: char, m1: char, m2: char)
    requires
        ucd_ccc(st) == 0,
        0 < ucd_ccc(m2) <= ucd_ccc(m1),
        compose_pair(st, m1).is_none(),
    ensures
        composed(seq![st, m1, m2]) == seq![st, m1, m2],
{
    let buf = seq![st, m1, m2];
    let cons = Seq::new(buf.len(), |_k: int| false);
    assert(buf[0] == st && buf[1] == m1 && buf[2] == m2);
    assert(compose_from(buf, cons, 0, 3, st, ucd_ccc(m2)) == (st, cons));
    assert(compose_from(buf, cons, 0, 2, st, ucd_ccc(m1)) == (st, cons));
    assert(compose_from(buf, cons, 0, 1, st, 0) == (st, cons));
    let e = Seq::<char>::empty();
    assert(compose_run(buf, cons, 3, e.push(st).push(m1).push(m2)) == e.push(st).push(m1).push(m2));
    assert(compose_run(buf, cons, 2, e.push(st).push(m1)) == e.push(st).push(m1).push(m2));
    assert(compose_run(buf, cons, 1, e.push(st)) == e.push(st).push(m1).push(m2));
    assert(compose_run(buf, cons, 0, e) == e.push(st).push(m1).push(m2));
    assert(e.push(st).push(m1).push(m2) =~= seq![st, m1, m2]);
}

/// NFD: canonical decomposition, canonically ordered.
pub fn nfd(s: &str) -> (r: String)
    ensures
        r@ == decomposed(s@, false),
        canonically_ordered(r@),
{
    proof {
        lemma_canonical_order(decompose_prefix(s@, false, s@.len() as int));
    }
    normalize_chars(s, false, false)
}

/// NFC: canonical decomposition followed by canonical composition.
pub fn nfc(s: &str) -> (r: String)
    ensures
        r@ == composed(decomposed(s@, false)),
{
    normalize_chars(s, false, true)
}

/// NFKD: compatibility decomposition, canonically ordered.
pub fn nfkd(s: &str) -> (r: String)
    ensures
        r@ == decomposed(s@, true),
        canonically_ordered(r@),
{
    proof {
        lemma_canonical_order(decompose_prefix(s@, true, s@.len() as int));
    }
    normalize_chars(s, true, false)
}

/// NFKC: compatibility decomposition followed by canonical composition.
pub fn nfkc(s: &str) -> (r: String)
    ensures
        r@ == composed(decomposed(s@, true)),
{
    normalize_chars(s, true, true)
}

} // verus!

//! W1-W7: resolving weak types within an isolating run sequence.
use vstd::prelude::*;

use crate::data::bidi_class::BidiClass;
use super::is_isolate_initiator;

verus! {

/// W1: the type an NSM takes from the character before it.
pub open spec fn w1_adjust(p: BidiClass) -> BidiClass {
    if is_isolate_initiator(p) || p == BidiClass::PDI { BidiClass::ON } else { p }
}

/// W1 on `s`: each NSM takes the (adjusted) type of the previous
/// character, or `sos` at the start.
pub open spec fn w1(s: Seq<BidiClass>, sos: BidiClass) -> Seq<BidiClass>
    decreases s.len(),
{
    if s.len() == 0 {
        s
    } else {
        let p = w1(s.drop_last(), sos);
        let prev = if p.len() == 0 { sos } else { p.last() };
        p.push(if s.last() == BidiClass::NSM { w1_adjust(prev) } else { s.last() })
    }
}

/// The last of L, R, AL before position `i`, or `sos`.
pub open spec fn last_strong_w2(s: Seq<BidiClass>, i: int, sos: BidiClass) -> BidiClass
    decreases i,
{
    if i <= 0 {
        sos
    } else if s[i - 1] == BidiClass::L || s[i - 1] == BidiClass::R || s[i - 1] == BidiClass::AL {
        s[i - 1]
    } else {
        last_strong_w2(s, i - 1, sos)
    }
}

/// W2: EN after AL (past non-strong types) becomes AN.
pub open spec fn w2(s: Seq<BidiClass>, sos: BidiClass) -> Seq<BidiClass> {
    Seq::new(s.len(), |i: int|
        if s[i] == BidiClass::EN && last_strong_w2(s, i, sos) == BidiClass::AL { BidiClass::AN } else { s[i] })
}

/// W3: AL becomes R.
pub open spec fn w3(s: Seq<BidiClass>) -> Seq<BidiClass> {
    Seq::new(s.len(), |i: int| if s[i] == BidiClass::AL { BidiClass::R } else { s[i] })
}

/// W4 at one position, from the resolved previous type and the next type.
pub open spec fn w4_at(prev: BidiClass, cur: BidiClass, next: BidiClass) -> BidiClass {
    if cur == BidiClass::ES && prev == BidiClass::EN && next == BidiClass::EN {
        BidiClass::EN
    } else if cur == BidiClass::CS && prev == BidiClass::EN && next == BidiClass::EN {
        BidiClass::EN
    } else if cur == BidiClass::CS && prev == BidiClass::AN && next == BidiClass::AN {
        BidiClass::AN
    } else {
        cur
    }
}

/// W4 on the first `k` positions of `s`.
pub open spec fn w4_prefix(s: Seq<BidiClass>, k: int) -> Seq<BidiClass>
    decreases k,
{
    if k <= 0 {
        seq![]
    } else {
        let p = w4_prefix(s, k - 1);
        let i = k - 1;
        p.push(if 1 <= i && i + 1 < s.len() { w4_at(p.last(), s[i], s[i + 1]) } else { s[i] })
    }
}

/// W4: a single ES between two ENs, or a single CS between two numbers of
/// the same type, takes that type.
pub open spec fn w4(s: Seq<BidiClass>) -> Seq<BidiClass> {
    w4_prefix(s, s.len() as int)
}

/// W5, forward half: ET after EN becomes EN.
pub open spec fn w5_forward(s: Seq<BidiClass>) -> Seq<BidiClass>
    decreases s.len(),
{
    if s.len() == 0 {
        s
    } else {
        let p = w5_forward(s.drop_last());
        p.push(if s.last() == BidiClass::ET && p.len() > 0 && p.last() == BidiClass::EN { BidiClass::EN } else { s.last() })
    }
}

/// W5, backward half: ET before EN becomes EN.
pub open spec fn w5_backward(s: Seq<BidiClass>) -> Seq<BidiClass>
    decreases s.len(),
{
    if s.len() == 0 {
        s
    } else {
        let r = w5_backward(s.drop_first());
        seq![if s[0] == BidiClass::ET && r.len() > 0 && r[0] == BidiClass::EN { BidiClass::EN } else { s[0] }] + r
    }
}

/// W6: remaining separators and terminators become ON.
pub open spec fn w6(s: Seq<BidiClass>) -> Seq<BidiClass> {
    Seq::new(s.len(), |i: int|
        if s[i] == BidiClass::ES || s[i] == BidiClass::ET || s[i] == BidiClass::CS { BidiClass::ON } else { s[i] })
}

/// The last of L, R before position `i`, or `sos`.
pub open spec fn last_strong_w7(s: Seq<BidiClass>, i: int, sos: BidiClass) -> BidiClass
    decreases i,
{
    if i <= 0 {
        sos
    } else if s[i - 1] == BidiClass::L || s[i - 1] == BidiClass::R {
        s[i - 1]
    } else {
        last_strong_w7(s, i - 1, sos)
    }
}

/// W7: EN after L (past non-strong types) becomes L.
pub open spec fn w7(s: Seq<BidiClass>, sos: BidiClass) -> Seq<BidiClass> {
    Seq::new(s.len(), |i: int|
        if s[i] == BidiClass::EN && last_strong_w7(s, i, sos) == BidiClass::L { BidiClass::L } else { s[i] })
}

/// W1-W7 in order.
pub open spec fn spec_weak(s: Seq<BidiClass>, sos: BidiClass) -> Seq<BidiClass> {
    w7(w6(w5_backward(w5_forward(w4(w3(w2(w1(s, sos), sos)))))), sos)
}

fn apply_w1(sc: &mut Vec<BidiClass>, sos: BidiClass)
    ensures
        final(sc)@ == w1(old(sc)@, sos),
        final(sc)@.len() == old(sc)@.len(),
{
    let ghost s0 = sc@;
    let n = sc.len();
    let mut prev_type = sos;
    let mut i: usize = 0;
    while i < n
        invariant
            n == s0.len(),
            sc@.len() == n,
            i <= n,
            sc@.take(i as int) == w1(s0.take(i as int), sos),
            forall|j: int| i <= j < n ==> sc@[j] == s0[j],
            prev_type == (if i == 0 { sos } else { sc@[i - 1] }),
        decreases n - i,
    {
        proof {
            assert(s0.take(i + 1).drop_last() == s0.take(i as int));
        }
        if sc[i] == BidiClass::NSM {
            sc[i] = match prev_type {
                BidiClass::LRI | BidiClass::RLI | BidiClass::FSI | BidiClass::PDI => BidiClass::ON,
                _ => prev_type,
            };
        }
        prev_type = sc[i];
        i += 1;
        proof {
            assert(sc@.take(i as int) == sc@.take(i - 1).push(sc@[i - 1]));
        }
    }
    proof {
        assert(s0.take(n as int) == s0);
        assert(sc@.take(n as int) == sc@);
    }
}

fn apply_w2(sc: &mut Vec<BidiClass>, sos: BidiClass)
    ensures
        final(sc)@ == w2(old(sc)@, sos),
        final(sc)@.len() == old(sc)@.len(),
{
    let ghost s0 = sc@;
    let n = sc.len();
    let mut last_strong = sos;
    let mut i: usize = 0;
    while i < n
        invariant
            n == s0.len(),
            sc@.len() == n,
            i <= n,
            forall|j: int| 0 <= j < i ==> sc@[j] == w2(s0, sos)[j],
            forall|j: int| i <= j < n ==> sc@[j] == s0[j],
            last_strong == last_strong_w2(s0, i as int, sos),
        decreases n - i,
    {
        match sc[i] {
            BidiClass::L | BidiClass::R | BidiClass::AL => last_strong = sc[i],
            BidiClass::EN => {
                if last_strong == BidiClass::AL {
                    sc[i] = BidiClass::AN;
                }
            },
            _ => {},
        }
        i += 1;
    }
    proof {
        assert(sc@ == w2(s0, sos));
    }
}

fn apply_w3(sc: &mut Vec<BidiClass>)
    ensures
        final(sc)@ == w3(old(sc)@),
        final(sc)@.len() == old(sc)@.len(),
{
    let ghost s0 = sc@;
    let n = sc.len();
    let mut i: usize = 0;
    while i < n
        invariant
            n == s0.len(),
            sc@.len() == n,
            i <= n,
            forall|j: int| 0 <= j < i ==> sc@[j] == w3(s0)[j],
            forall|j: int| i <= j < n ==> sc@[j] == s0[j],
        decreases n - i,
    {
        if sc[i] == BidiClass::AL {
            sc[i] = BidiClass::R;
        }
        i += 1;
    }
    proof {
        assert(sc@ == w3(s0));
    }
}

proof fn lemma_w4_prefix_len(s: Seq<BidiClass>, k: int)
    requires
        0 <= k,
    ensures
        w4_prefix(s, k).len() == k,
    decreases k,
{
    if k > 0 {
        lemma_w4_prefix_len(s, k - 1);
    }
}

fn apply_w4(sc: &mut Vec<BidiClass>)
    ensures
        final(sc)@ == w4(old(sc)@),
        final(sc)@.len() == old(sc)@.len(),
{
    let ghost s0 = sc@;
    let n = sc.len();
    proof {
        lemma_w4_prefix_len(s0, 0);
        lemma_w4_prefix_len(s0, 1);
    }
    if n <= 1 {
        proof {
            assert(w4_prefix(s0, n as int) == s0.take(n as int));
            assert(s0.take(n as int) == s0);
        }
        return;
    }
    let mut i: usize = 1;
    assert(w4_prefix(s0, 1) == s0.take(1));
    while i < n - 1
        invariant
            n == s0.len(),
            n >= 2,
            sc@.len() == n,
            1 <= i <= n - 1,
            sc@.take(i as int) == w4_prefix(s0, i as int),
            forall|j: int| i <= j < n ==> sc@[j] == s0[j],
        decreases n - i,
    {
        proof {
            lemma_w4_prefix_len(s0, i as int);
            assert(w4_prefix(s0, i as int).last() == sc@[i - 1]);
        }
        if sc[i] == BidiClass::ES && sc[i - 1] == BidiClass::EN && sc[i + 1] == BidiClass::EN {
            sc[i] = BidiClass::EN;
        } else if sc[i] == BidiClass::CS {
            if sc[i - 1] == BidiClass::EN && sc[i + 1] == BidiClass::EN {
                sc[i] = BidiClass::EN;
            } else if sc[i - 1] == BidiClass::AN && sc[i + 1] == BidiClass::AN {
                sc[i] = BidiClass::AN;
            }
        }
        i += 1;
        proof {
            assert(sc@.take(i as int) == sc@.take(i - 1).push(sc@[i - 1]));
        }
    }
    proof {
        lemma_w4_prefix_len(s0, n - 1);
        assert(sc@.take(n as int) == sc@.take(n - 1).push(sc@[n - 1]));
        assert(sc@.take(n as int) == sc@);
    }
}

fn apply_w5(sc: &mut Vec<BidiClass>)
    ensures
        final(sc)@ == w5_backward(w5_forward(old(sc)@)),
        final(sc)@.len() == old(sc)@.len(),
{
    let ghost s0 = sc@;
    let n = sc.len();
    let mut prev_en = false;
    let mut i: usize = 0;
    while i < n
        invariant
            n == s0.len(),
            sc@.len() == n,
            i <= n,
            sc@.take(i as int) == w5_forward(s0.take(i as int)),
            forall|j: int| i <= j < n ==> sc@[j] == s0[j],
            prev_en == (i > 0 && sc@[i - 1] == BidiClass::EN),
        decreases n - i,
    {
        proof {
            assert(s0.take(i + 1).drop_last() == s0.take(i as int));
        }
        match sc[i] {
            BidiClass::EN => prev_en = true,
            BidiClass::ET if prev_en => {
                sc[i] = BidiClass::EN;
            },
            _ => prev_en = false,
        }
        i += 1;
        proof {
            assert(sc@.take(i as int) == sc@.take(i - 1).push(sc@[i - 1]));
        }
    }
    proof {
        assert(s0.take(n as int) == s0);
        assert(sc@.take(n as int) == sc@);
    }
    let ghost s1 = sc@;
    let mut next_en = false;
    let mut k: usize = n;
    while k > 0
        invariant
            n == s1.len(),
            sc@.len() == n,
            k <= n,
            sc@.skip(k as int) == w5_backward(s1.skip(k as int)),
            forall|j: int| 0 <= j < k ==> sc@[j] == s1[j],
            next_en == (k < n && sc@[k as int] == BidiClass::EN),
        decreases k,
    {
        let i = k - 1;
        proof {
            assert(s1.skip(i as int).drop_first() == s1.skip(k as int));
        }
        match sc[i] {
            BidiClass::EN => next_en = true,
            BidiClass::ET if next_en => {
                sc[i] = BidiClass::EN;
            },
            _ => next_en = false,
        }
        k = i;
        proof {
            assert(sc@.skip(k as int) == seq![sc@[k as int]] + sc@.skip(k + 1));
        }
    }
    proof {
        assert(s1.skip(0) == s1);
        assert(sc@.skip(0) == sc@);
    }
}

fn apply_w6(sc: &mut Vec<BidiClass>)
    ensures
        final(sc)@ == w6(old(sc)@),
        final(sc)@.len() == old(sc)@.len(),
{
    let ghost s0 = sc@;
    let n = sc.len();
    let mut i: usize = 0;
    while i < n
        invariant
            n == s0.len(),
            sc@.len() == n,
            i <= n,
            forall|j: int| 0 <= j < i ==> sc@[j] == w6(s0)[j],
            forall|j: int| i <= j < n ==> sc@[j] == s0[j],
        decreases n - i,
    {
        match sc[i] {
            BidiClass::ES | BidiClass::ET | BidiClass::CS => {
                sc[i] = BidiClass::ON;
            },
            _ => {},
        }
        i += 1;
    }
    proof {
        assert(sc@ == w6(s0));
    }
}

fn apply_w7(sc: &mut Vec<BidiClass>, sos: BidiClass)
    ensures
        final(sc)@ == w7(old(sc)@, sos),
        final(sc)@.len() == old(sc)@.len(),
{
    let ghost s0 = sc@;
    let n = sc.len();
    let mut last_strong = sos;
    let mut i: usize = 0;
    while i < n
        invariant
            n == s0.len(),
            sc@.len() == n,
            i <= n,
            forall|j: int| 0 <= j < i ==> sc@[j] == w7(s0, sos)[j],
            forall|j: int| i <= j < n ==> sc@[j] == s0[j],
            last_strong == last_strong_w7(s0, i as int, sos),
        decreases n - i,
    {
        match sc[i] {
            BidiClass::L | BidiClass::R => last_strong = sc[i],
            BidiClass::EN => {
                if last_strong == BidiClass::L {
                    sc[i] = BidiClass::L;
                }
            },
            _ => {},
        }
        i += 1;
    }
    proof {
        assert(sc@ == w7(s0, sos));
    }
}


proof fn lemma_w1_keeps(s: Seq<BidiClass>, sos: BidiClass, k: int)
    requires
        0 <= k < s.len(),
        s[k] != BidiClass::NSM,
    ensures
        w1(s, sos).len() == s.len(),
        w1(s, sos)[k] == s[k],
    decreases s.len(),
{
    lemma_w1_len(s.drop_last(), sos);
    if k < s.len() - 1 {
        lemma_w1_keeps(s.drop_last(), sos, k);
    }
}

proof fn lemma_w1_len(s: Seq<BidiClass>, sos: BidiClass)
    ensures
        w1(s, sos).len() == s.len(),
    decreases s.len(),
{
    if s.len() > 0 {
        lemma_w1_len(s.drop_last(), sos);
    }
}

proof fn lemma_w4_prefix_at(s: Seq<BidiClass>, k: int, j: int)
    requires
        0 <= j < k,
    ensures
        w4_prefix(s, k)[j] == w4_prefix(s, j + 1)[j],
    decreases k,
{
    lemma_w4_prefix_len(s, k - 1);
    if j < k - 1 {
        lemma_w4_prefix_at(s, k - 1, j);
    }
}

/// One position of W4, in terms of the position before it.
proof fn lemma_w4_at(s: Seq<BidiClass>, j: int)
    requires
        0 <= j < s.len(),
    ensures
        w4(s).len() == s.len(),
        w4(s)[j] == (if 1 <= j && j + 1 < s.len() { w4_at(w4(s)[j - 1], s[j], s[j + 1]) } else { s[j] }),
{
    lemma_w4_prefix_len(s, s.len() as int);
    lemma_w4_prefix_len(s, j);
    lemma_w4_prefix_at(s, s.len() as int, j);
    if j >= 1 {
        lemma_w4_prefix_at(s, s.len() as int, j - 1);
        lemma_w4_prefix_at(s, j, j - 1);
    }
}

proof fn lemma_w5_forward_keeps(s: Seq<BidiClass>, k: int)
    requires
        0 <= k < s.len(),
        s[k] != BidiClass::ET,
    ensures
        w5_forward(s).len() == s.len(),
        w5_forward(s)[k] == s[k],
    decreases s.len(),
{
    lemma_w5_forward_len(s.drop_last());
    if k < s.len() - 1 {
        lemma_w5_forward_keeps(s.drop_last(), k);
    }
}

proof fn lemma_w5_forward_len(s: Seq<BidiClass>)
    ensures
        w5_forward(s).len() == s.len(),
    decreases s.len(),
{
    if s.len() > 0 {
        lemma_w5_forward_len(s.drop_last());
    }
}

proof fn lemma_w5_backward_keeps(s: Seq<BidiClass>, k: int)
    requires
        0 <= k < s.len(),
        s[k] != BidiClass::ET,
    ensures
        w5_backward(s).len() == s.len(),
        w5_backward(s)[k] == s[k],
    decreases s.len(),
{
    lemma_w5_backward_len(s.drop_first());
    if k > 0 {
        lemma_w5_backward_keeps(s.drop_first(), k - 1);
    }
}

proof fn lemma_w5_backward_len(s: Seq<BidiClass>)
    ensures
        w5_backward(s).len() == s.len(),
    decreases s.len(),
{
    if s.len() > 0 {
        lemma_w5_backward_len(s.drop_first());
    }
}

/// Whether `c` is a number type: EN or AN.
pub open spec fn is_number(c: BidiClass) -> bool {
    c == BidiClass::EN || c == BidiClass::AN
}

/// W4: a single common separator (CS) between two European numbers, or
/// between two Arabic numbers, takes the type of the numbers around it: in
/// the resolved weak types of a run sequence it ends up with the same type
/// as both neighbours, so the number and its separator are laid out as one.
#[verifier::spinoff_prover]
pub proof fn lemma_separator_in_number(s: Seq<BidiClass>, sos: BidiClass, i: int)
    requires
        1 <= i,
        i + 1 < s.len(),
        s[i] == BidiClass::CS,
        (s[i - 1] == BidiClass::EN && s[i + 1] == BidiClass::EN)
            || (s[i - 1] == BidiClass::AN && s[i + 1] == BidiClass::AN),
    ensures
        spec_weak(s, sos).len() == s.len(),
        spec_weak(s, sos)[i] == spec_weak(s, sos)[i - 1],
        spec_weak(s, sos)[i] == spec_weak(s, sos)[i + 1],
{
    let a = w1(s, sos);
    lemma_w1_keeps(s, sos, i - 1);
    lemma_w1_keeps(s, sos, i);
    lemma_w1_keeps(s, sos, i + 1);
    let b = w2(a, sos);
    assert(last_strong_w2(a, i + 1, sos) == last_strong_w2(a, i, sos));
    assert(last_strong_w2(a, i, sos) == last_strong_w2(a, i - 1, sos));
    assert(b[i - 1] == b[i + 1] && is_number(b[i - 1]) && b[i] == BidiClass::CS);
    let c = w3(b);
    let d = w4(c);
    lemma_w4_at(c, i - 1);
    lemma_w4_at(c, i);
    lemma_w4_at(c, i + 1);
    assert(d[i - 1] == c[i - 1]);
    assert(d[i + 1] == c[i + 1]);
    assert(d[i] == d[i - 1] && d[i] == d[i + 1] && is_number(d[i]));
    let e1 = w5_forward(d);
    lemma_w5_forward_keeps(d, i - 1);
    lemma_w5_forward_keeps(d, i);
    lemma_w5_forward_keeps(d, i + 1);
    let e = w5_backward(e1);
    lemma_w5_backward_keeps(e1, i - 1);
    lemma_w5_backward_keeps(e1, i);
    lemma_w5_backward_keeps(e1, i + 1);
    let f = w6(e);
    assert(f[i - 1] == d[i] && f[i] == d[i] && f[i + 1] == d[i]);
    let r = w7(f, sos);
    assert(last_strong_w7(f, i + 1, sos) == last_strong_w7(f, i, sos));
    assert(last_strong_w7(f, i, sos) == last_strong_w7(f, i - 1, sos));
    assert(r == spec_weak(s, sos));
}


proof fn lemma_w1_prefix(s: Seq<BidiClass>, sos: BidiClass, k: int, m: int)
    requires
        0 <= m < k <= s.len(),
    ensures
        w1(s, sos)[m] == w1(s.subrange(0, k), sos)[m],
    decreases s.len(),
{
    if k < s.len() {
        lemma_w1_len(s.drop_last(), sos);
        assert(s.drop_last().subrange(0, k) =~= s.subrange(0, k));
        lemma_w1_prefix(s.drop_last(), sos, k, m);
    } else {
        assert(s.subrange(0, k) =~= s);
    }
}

/// W1 at one position, from the position before it.
proof fn lemma_w1_at(s: Seq<BidiClass>, sos: BidiClass, m: int)
    requires
        0 <= m < s.len(),
    ensures
        w1(s, sos).len() == s.len(),
        w1(s, sos)[m] == (if s[m] == BidiClass::NSM {
            w1_adjust(if m == 0 { sos } else { w1(s, sos)[m - 1] })
        } else {
            s[m]
        }),
{
    lemma_w1_len(s, sos);
    let t = s.subrange(0, m + 1);
    lemma_w1_prefix(s, sos, m + 1, m);
    lemma_w1_len(t.drop_last(), sos);
    assert(t.drop_last() =~= s.subrange(0, m));
    if m > 0 {
        lemma_w1_prefix(s, sos, m, m - 1);
    }
}

/// W1 brings no AL where there was none before and the start type is not AL.
proof fn lemma_w1_no_al(s: Seq<BidiClass>, sos: BidiClass, k: int)
    requires
        0 <= k <= s.len(),
        sos != BidiClass::AL,
        forall|m: int| 0 <= m < k ==> #[trigger] s[m] != BidiClass::AL,
    ensures
        forall|m: int| 0 <= m < k ==> #[trigger] w1(s, sos)[m] != BidiClass::AL,
    decreases k,
{
    if k > 0 {
        lemma_w1_no_al(s, sos, k - 1);
        lemma_w1_at(s, sos, k - 1);
    }
}

proof fn lemma_last_strong_w2_not_al(a: Seq<BidiClass>, i: int, sos: BidiClass)
    requires
        i <= a.len(),
        sos != BidiClass::AL,
        forall|m: int| 0 <= m < i ==> #[trigger] a[m] != BidiClass::AL,
    ensures
        last_strong_w2(a, i, sos) != BidiClass::AL,
    decreases i,
{
    if i > 0 {
        lemma_last_strong_w2_not_al(a, i - 1, sos);
    }
}

/// W4: a single European separator (ES) between two European numbers
/// takes their type when no Arabic letter comes before (W2 would make the
/// numbers Arabic): it ends up with the same type as both neighbours.
#[verifier::spinoff_prover]
pub proof fn lemma_plus_minus_in_number(s: Seq<BidiClass>, sos: BidiClass, i: int)
    requires
        1 <= i,
        i + 1 < s.len(),
        s[i] == BidiClass::ES,
        s[i - 1] == BidiClass::EN,
        s[i + 1] == BidiClass::EN,
        sos != BidiClass::AL,
        forall|m: int| 0 <= m < i ==> #[trigger] s[m] != BidiClass::AL,
    ensures
        spec_weak(s, sos).len() == s.len(),
        spec_weak(s, sos)[i] == spec_weak(s, sos)[i - 1],
        spec_weak(s, sos)[i] == spec_weak(s, sos)[i + 1],
{
    let a = w1(s, sos);
    lemma_w1_keeps(s, sos, i - 1);
    lemma_w1_keeps(s, sos, i);
    lemma_w1_keeps(s, sos, i + 1);
    lemma_w1_no_al(s, sos, i);
    lemma_last_strong_w2_not_al(a, i - 1, sos);
    let b = w2(a, sos);
    assert(last_strong_w2(a, i + 1, sos) == last_strong_w2(a, i, sos));
    assert(last_strong_w2(a, i, sos) == last_strong_w2(a, i - 1, sos));
    assert(b[i - 1] == BidiClass::EN && b[i + 1] == BidiClass::EN && b[i] == BidiClass::ES);
    let c = w3(b);
    let d = w4(c);
    lemma_w4_at(c, i - 1);
    lemma_w4_at(c, i);
    lemma_w4_at(c, i + 1);
    assert(d[i - 1] == c[i - 1]);
    assert(d[i + 1] == c[i + 1]);
    assert(d[i] == BidiClass::EN && d[i - 1] == BidiClass::EN && d[i + 1] == BidiClass::EN);
    let e1 = w5_forward(d);
    lemma_w5_forward_keeps(d, i - 1);
    lemma_w5_forward_keeps(d, i);
    lemma_w5_forward_keeps(d, i + 1);
    let e = w5_backward(e1);
    lemma_w5_backward_keeps(e1, i - 1);
    lemma_w5_backward_keeps(e1, i);
    lemma_w5_backward_keeps(e1, i + 1);
    let f = w6(e);
    assert(f[i - 1] == d[i] && f[i] == d[i] && f[i + 1] == d[i]);
    let r = w7(f, sos);
    assert(last_strong_w7(f, i + 1, sos) == last_strong_w7(f, i, sos));
    assert(last_strong_w7(f, i, sos) == last_strong_w7(f, i - 1, sos));
    assert(r == spec_weak(s, sos));
}


proof fn lemma_w5_forward_values(s: Seq<BidiClass>, k: int)
    requires
        0 <= k < s.len(),
    ensures
        w5_forward(s).len() == s.len(),
        w5_forward(s)[k] == s[k] || w5_forward(s)[k] == BidiClass::EN,
    decreases s.len(),
{
    lemma_w5_forward_len(s.drop_last());
    if k < s.len() - 1 {
        lemma_w5_forward_values(s.drop_last(), k);
    }
}

proof fn lemma_w5_backward_values(s: Seq<BidiClass>, k: int)
    requires
        0 <= k < s.len(),
    ensures
        w5_backward(s).len() == s.len(),
        w5_backward(s)[k] == s[k] || w5_backward(s)[k] == BidiClass::EN,
    decreases s.len(),
{
    lemma_w5_backward_len(s.drop_first());
    if k > 0 {
        lemma_w5_backward_values(s.drop_first(), k - 1);
    }
}

proof fn lemma_w1_no_nsm(s: Seq<BidiClass>, sos: BidiClass, k: int)
    requires
        0 <= k <= s.len(),
        sos != BidiClass::NSM,
    ensures
        forall|m: int| 0 <= m < k ==> #[trigger] w1(s, sos)[m] != BidiClass::NSM,
    decreases k,
{
    if k > 0 {
        lemma_w1_no_nsm(s, sos, k - 1);
        lemma_w1_at(s, sos, k - 1);
    }
}

/// After W1-W7 only strong types (L, R), numbers (EN, AN), neutrals (ON,
/// B, S, WS) and isolate controls remain: no NSM (W1), AL (W3), ES, ET or
/// CS (W4-W6) is left, when the start type is L or R.
#[verifier::spinoff_prover]
pub proof fn lemma_weak_types_resolved(s: Seq<BidiClass>, sos: BidiClass, k: int)
    requires
        0 <= k < s.len(),
        sos == BidiClass::L || sos == BidiClass::R,
    ensures
        spec_weak(s, sos).len() == s.len(),
        spec_weak(s, sos)[k] != BidiClass::NSM,
        spec_weak(s, sos)[k] != BidiClass::AL,
        spec_weak(s, sos)[k] != BidiClass::ES,
        spec_weak(s, sos)[k] != BidiClass::ET,
        spec_weak(s, sos)[k] != BidiClass::CS,
{
    let a = w1(s, sos);
    lemma_w1_len(s, sos);
    lemma_w1_no_nsm(s, sos, s.len() as int);
    assert(a[k] != BidiClass::NSM);
    let b = w2(a, sos);
    let c = w3(b);
    assert(c[k] != BidiClass::NSM && c[k] != BidiClass::AL);
    let d = w4(c);
    lemma_w4_at(c, k);
    assert(d[k] != BidiClass::NSM && d[k] != BidiClass::AL);
    let e1 = w5_forward(d);
    lemma_w5_forward_values(d, k);
    let e = w5_backward(e1);
    lemma_w5_backward_values(e1, k);
    assert(e[k] != BidiClass::NSM && e[k] != BidiClass::AL);
    let f = w6(e);
    let r = w7(f, sos);
    assert(r == spec_weak(s, sos));
}

/// W1-W7: resolve weak types of one isolating run sequence.
pub fn resolve_weak_types(sc: &mut Vec<BidiClass>, sos: BidiClass)
    ensures
        final(sc)@ == spec_weak(old(sc)@, sos),
        final(sc)@.len() == old(sc)@.len(),
{
    apply_w1(sc, sos);
    apply_w2(sc, sos);
    apply_w3(sc);
    apply_w4(sc);
    apply_w5(sc);
    apply_w6(sc);
    apply_w7(sc, sos);
}

} // verus!

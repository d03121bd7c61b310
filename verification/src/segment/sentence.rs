//! UAX #29: sentence boundaries (SB1-SB998, default rules).
//!
//! SB3-SB4 look at the raw classes of adjacent characters; SB5 makes Extend
//! and Format transparent; SB6-SB11 follow a small state machine over the
//! terminator context (STerm/ATerm, then Close*, then Sp*).
use vstd::prelude::*;

use crate::data::sentence_break::{sb, spec_sb, Sb};
use crate::text::{byte_len, byte_offsets, byte_pos, chars_of, is_char_start, lemma_byte_pos_mono, lemma_char_start_at, str_len};

verus! {

/// Terminator context for SB6-SB11.
#[derive(Clone, Copy, PartialEq, Eq, Structural)]
pub enum SbCtx {
    /// Not after a sentence terminator.
    Outside,
    /// After STerm or ATerm (`is_aterm`), possibly followed by Close
    /// characters (`after_close`).
    SATerm { is_aterm: bool, after_close: bool },
    /// After a terminator, its Close characters and one or more spaces.
    SATermSp { is_aterm: bool },
}

/// The state carried from one character to the next: the terminator
/// context, the class before the last terminator, and the last
/// non-transparent class of the current sentence.
#[derive(Clone, Copy, PartialEq, Eq, Structural)]
pub struct SbState {
    pub ctx: SbCtx,
    pub before_saterm: Option<Sb>,
    pub last_resolved: Option<Sb>,
}

/// SB5: Extend and Format are transparent.
pub open spec fn is_sb_transparent(s: Sb) -> bool {
    s == Sb::Extend || s == Sb::Format
}

/// SB8 look-ahead from `k`: whether a Lower comes before any OLetter,
/// Upper, ParaSep or terminator.
pub open spec fn sb8_lower(s: Seq<Sb>, k: int) -> bool
    decreases s.len() - k,
{
    if k < 0 || k >= s.len() {
        false
    } else if is_sb_transparent(s[k]) {
        sb8_lower(s, k + 1)
    } else if s[k] == Sb::Lower {
        true
    } else if s[k] == Sb::OLetter || s[k] == Sb::Upper || s[k] == Sb::Sep || s[k] == Sb::Cr
        || s[k] == Sb::Lf || s[k] == Sb::STerm || s[k] == Sb::ATerm {
        false
    } else {
        sb8_lower(s, k + 1)
    }
}

/// The context that a terminator opens.
pub open spec fn opened_ctx(x: Sb, ctx: SbCtx) -> SbCtx {
    if x == Sb::ATerm {
        SbCtx::SATerm { is_aterm: true, after_close: false }
    } else if x == Sb::STerm {
        SbCtx::SATerm { is_aterm: false, after_close: false }
    } else {
        ctx
    }
}

/// SB6-SB11 and SB998: whether a sentence starts at `i` (of class `x`).
pub open spec fn sb_rules(s: Seq<Sb>, i: int, st: SbState) -> bool {
    let x = s[i];
    match st.ctx {
        SbCtx::SATerm { is_aterm, after_close } => {
            if is_aterm && !after_close && x == Sb::Numeric {
                false
            } else if is_aterm && !after_close && x == Sb::Upper
                && (st.before_saterm == Some(Sb::Upper) || st.before_saterm == Some(Sb::Lower)) {
                false
            } else if is_aterm && sb8_lower(s, i) {
                false
            } else if x == Sb::SContinue || x == Sb::STerm || x == Sb::ATerm {
                false
            } else if x == Sb::Close || x == Sb::Sp || x == Sb::Sep || x == Sb::Cr || x == Sb::Lf {
                false
            } else {
                true
            }
        },
        SbCtx::SATermSp { is_aterm } => {
            if is_aterm && sb8_lower(s, i) {
                false
            } else if x == Sb::SContinue || x == Sb::STerm || x == Sb::ATerm {
                false
            } else if x == Sb::Sp || x == Sb::Sep || x == Sb::Cr || x == Sb::Lf {
                false
            } else {
                true
            }
        },
        SbCtx::Outside => false,
    }
}

/// The context after a non-transparent character `x`.
pub open spec fn next_ctx(x: Sb, ctx: SbCtx, brk: bool) -> SbCtx {
    if x == Sb::ATerm || x == Sb::STerm {
        opened_ctx(x, ctx)
    } else if x == Sb::Close {
        match ctx {
            SbCtx::SATerm { is_aterm, after_close } => if !brk {
                SbCtx::SATerm { is_aterm, after_close: true }
            } else {
                SbCtx::Outside
            },
            _ => SbCtx::Outside,
        }
    } else if x == Sb::Sp {
        match ctx {
            SbCtx::SATerm { is_aterm, after_close } => if !brk { SbCtx::SATermSp { is_aterm } } else { SbCtx::Outside },
            SbCtx::SATermSp { is_aterm } => if !brk { ctx } else { SbCtx::Outside },
            SbCtx::Outside => SbCtx::Outside,
        }
    } else {
        SbCtx::Outside
    }
}

/// The sentence break classes of `cs`.
pub open spec fn sb_classes(cs: Seq<char>) -> Seq<Sb> {
    cs.map_values(|c: char| spec_sb(c))
}

/// The state at the start of a sentence whose first character has class `x`.
pub open spec fn sentence_start_state(x: Sb, before: Option<Sb>) -> SbState {
    if is_sb_transparent(x) {
        SbState { ctx: SbCtx::Outside, before_saterm: before, last_resolved: None }
    } else if x == Sb::ATerm || x == Sb::STerm {
        SbState { ctx: opened_ctx(x, SbCtx::Outside), before_saterm: None, last_resolved: Some(x) }
    } else {
        SbState { ctx: SbCtx::Outside, before_saterm: before, last_resolved: Some(x) }
    }
}

/// Whether a sentence starts at `i`, and the state after `i`.
pub open spec fn sb_step(s: Seq<Sb>, i: int, st: SbState) -> (bool, SbState) {
    let p = s[i - 1];
    let x = s[i];
    if p == Sb::Cr && x == Sb::Lf {
        (false, st)
    } else if p == Sb::Sep || p == Sb::Cr || p == Sb::Lf {
        (true, sentence_start_state(x, st.before_saterm))
    } else if is_sb_transparent(x) {
        (false, st)
    } else {
        let brk = sb_rules(s, i, st);
        let before = if x == Sb::ATerm || x == Sb::STerm { st.last_resolved } else { st.before_saterm };
        (brk, SbState { ctx: next_ctx(x, st.ctx, brk), before_saterm: before, last_resolved: Some(x) })
    }
}

/// Sentence starts among the first `k` characters, and the state after them.
pub open spec fn sb_run(s: Seq<Sb>, k: int) -> (Seq<int>, SbState)
    decreases k,
{
    if k <= 1 {
        (seq![0int], sentence_start_state(s[0], None))
    } else {
        let (b, st) = sb_run(s, k - 1);
        let (brk, st2) = sb_step(s, k - 1, st);
        (if brk { b.push(k - 1) } else { b }, st2)
    }
}

/// The sentence starts of `cs` as character positions; the empty text has
/// the single start 0.
pub open spec fn sentence_starts(cs: Seq<char>) -> Seq<int> {
    if cs.len() == 0 {
        seq![0int]
    } else {
        sb_run(sb_classes(cs), cs.len() as int).0
    }
}

proof fn lemma_sb_run_grows(s: Seq<Sb>, k: int, j: int, x: int)
    requires
        1 <= k <= j <= s.len(),
        sb_run(s, k).0.contains(x),
    ensures
        sb_run(s, j).0.contains(x),
    decreases j - k,
{
    if j > k {
        lemma_sb_run_grows(s, k, j - 1, x);
        let b = sb_run(s, j - 1).0;
        let i = choose|i: int| 0 <= i < b.len() && b[i] == x;
        if sb_step(s, j - 1, sb_run(s, j - 1).1).0 {
            assert(b.push(j - 1)[i] == x);
        }
    }
}

/// Whether position `k` of `cs` follows a paragraph separator, an LF, or a
/// CR that no LF follows.
pub open spec fn after_separator(cs: Seq<char>, k: int) -> bool {
    let p = spec_sb(cs[k - 1]);
    p == Sb::Sep || p == Sb::Lf || (p == Sb::Cr && spec_sb(cs[k]) != Sb::Lf)
}

/// SB4 (with SB3): a sentence starts after every paragraph separator, LF,
/// or CR not followed by LF.
pub proof fn lemma_sentence_starts_after_separator(cs: Seq<char>, k: int)
    requires
        0 < k < cs.len(),
        after_separator(cs, k),
    ensures
        sentence_starts(cs).contains(k),
{
    let w = sb_classes(cs);
    assert(w[k - 1] == spec_sb(cs[k - 1]) && w[k] == spec_sb(cs[k]));
    let prev = sb_run(w, k);
    assert(sb_step(w, k, prev.1).0);
    let b = sb_run(w, k + 1).0;
    assert(b == prev.0.push(k));
    assert(b[b.len() - 1] == k);
    lemma_sb_run_grows(w, k + 1, cs.len() as int, k);
}

proof fn lemma_state_after_sterm(s: Seq<Sb>, m: int)
    requires
        0 <= m < s.len(),
        s[m] == Sb::STerm,
    ensures
        sb_run(s, m + 1).1.ctx == (SbCtx::SATerm { is_aterm: false, after_close: false }),
{
}

/// SB11: after a sentence terminator (STerm), optionally followed by
/// spaces, a new sentence starts at the next character that does not
/// continue the terminator context (any class but Extend, Format,
/// SContinue, STerm, ATerm, Close, Sp, Sep, CR and LF).
pub proof fn lemma_sentence_starts_after_terminator(cs: Seq<char>, k: int)
    requires
        0 < k < cs.len(),
        spec_sb(cs[k - 1]) == Sb::STerm || (k >= 2 && spec_sb(cs[k - 2]) == Sb::STerm && spec_sb(cs[k - 1]) == Sb::Sp),
        !is_sb_transparent(spec_sb(cs[k])),
        !(spec_sb(cs[k]) == Sb::SContinue || spec_sb(cs[k]) == Sb::STerm || spec_sb(cs[k]) == Sb::ATerm
            || spec_sb(cs[k]) == Sb::Close || spec_sb(cs[k]) == Sb::Sp || spec_sb(cs[k]) == Sb::Sep
            || spec_sb(cs[k]) == Sb::Cr || spec_sb(cs[k]) == Sb::Lf),
    ensures
        sentence_starts(cs).contains(k),
{
    let w = sb_classes(cs);
    assert(w[k - 1] == spec_sb(cs[k - 1]) && w[k] == spec_sb(cs[k]));
    if spec_sb(cs[k - 1]) == Sb::STerm {
        lemma_state_after_sterm(w, k - 1);
    } else {
        assert(w[k - 2] == spec_sb(cs[k - 2]));
        lemma_state_after_sterm(w, k - 2);
        assert(sb_run(w, k).1.ctx == (SbCtx::SATermSp { is_aterm: false }));
    }
    let prev = sb_run(w, k);
    assert(sb_step(w, k, prev.1).0);
    let b = sb_run(w, k + 1).0;
    assert(b == prev.0.push(k));
    assert(b[b.len() - 1] == k);
    lemma_sb_run_grows(w, k + 1, cs.len() as int, k);
}

/// Whether `x` ends or separates sentences: a terminator or a separator.
pub open spec fn is_sentence_end_class(x: Sb) -> bool {
    x == Sb::ATerm || x == Sb::STerm || x == Sb::Sep || x == Sb::Cr || x == Sb::Lf
}

proof fn lemma_sb_run_single(s: Seq<Sb>, k: int)
    requires
        1 <= k <= s.len(),
        forall|j: int| 0 <= j < s.len() ==> !is_sentence_end_class(#[trigger] s[j]),
    ensures
        sb_run(s, k).0 == seq![0int],
        sb_run(s, k).1.ctx == SbCtx::Outside,
    decreases k,
{
    assert(!is_sentence_end_class(s[0]));
    if k > 1 {
        lemma_sb_run_single(s, k - 1);
        assert(!is_sentence_end_class(s[k - 1]));
        assert(!is_sentence_end_class(s[k - 2]));
    }
}

/// Text without terminators or separators is one sentence: its only
/// sentence start is 0.
pub proof fn lemma_one_sentence(cs: Seq<char>)
    requires
        forall|j: int| 0 <= j < cs.len() ==> !is_sentence_end_class(spec_sb(#[trigger] cs[j])),
    ensures
        sentence_starts(cs) == seq![0int],
{
    if cs.len() > 0 {
        let w = sb_classes(cs);
        assert forall|j: int| 0 <= j < w.len() implies !is_sentence_end_class(#[trigger] w[j]) by {
            assert(w[j] == spec_sb(cs[j]));
        }
        lemma_sb_run_single(w, cs.len() as int);
    }
}

fn is_transparent_exec(x: Sb) -> (r: bool)
    ensures
        r == is_sb_transparent(x),
{
    x == Sb::Extend || x == Sb::Format
}

fn sb8_lookahead_lower(sbs: &Vec<Sb>, start: usize) -> (r: bool)
    ensures
        r == sb8_lower(sbs@, start as int),
{
    let mut k = start;
    while k < sbs.len()
        invariant
            start <= k,
            sb8_lower(sbs@, k as int) == sb8_lower(sbs@, start as int),
        decreases sbs@.len() - k,
    {
        let x = sbs[k];
        if !is_transparent_exec(x) {
            match x {
                Sb::Lower => return true,
                Sb::OLetter | Sb::Upper | Sb::Sep | Sb::Cr | Sb::Lf | Sb::STerm | Sb::ATerm => return false,
                _ => {},
            }
        }
        k += 1;
    }
    false
}

fn start_state(x: Sb, before: Option<Sb>) -> (st: SbState)
    ensures
        st == sentence_start_state(x, before),
{
    if is_transparent_exec(x) {
        SbState { ctx: SbCtx::Outside, before_saterm: before, last_resolved: None }
    } else if x == Sb::ATerm {
        SbState { ctx: SbCtx::SATerm { is_aterm: true, after_close: false }, before_saterm: None, last_resolved: Some(x) }
    } else if x == Sb::STerm {
        SbState { ctx: SbCtx::SATerm { is_aterm: false, after_close: false }, before_saterm: None, last_resolved: Some(x) }
    } else {
        SbState { ctx: SbCtx::Outside, before_saterm: before, last_resolved: Some(x) }
    }
}

fn apply_sb_rules(sbs: &Vec<Sb>, i: usize, st: SbState) -> (brk: bool)
    requires
        i < sbs@.len(),
    ensures
        brk == sb_rules(sbs@, i as int, st),
{
    let x = sbs[i];
    let before_ul = match st.before_saterm {
        Some(b) => b == Sb::Upper || b == Sb::Lower,
        None => false,
    };
    match st.ctx {
        SbCtx::SATerm { is_aterm, after_close } => {
            if is_aterm && !after_close && x == Sb::Numeric {
                false
            } else if is_aterm && !after_close && x == Sb::Upper && before_ul {
                false
            } else if is_aterm && sb8_lookahead_lower(sbs, i) {
                false
            } else if x == Sb::SContinue || x == Sb::STerm || x == Sb::ATerm {
                false
            } else if x == Sb::Close || x == Sb::Sp || x == Sb::Sep || x == Sb::Cr || x == Sb::Lf {
                false
            } else {
                true
            }
        },
        SbCtx::SATermSp { is_aterm } => {
            if is_aterm && sb8_lookahead_lower(sbs, i) {
                false
            } else if x == Sb::SContinue || x == Sb::STerm || x == Sb::ATerm {
                false
            } else if x == Sb::Sp || x == Sb::Sep || x == Sb::Cr || x == Sb::Lf {
                false
            } else {
                true
            }
        },
        SbCtx::Outside => false,
    }
}

fn advance_ctx(x: Sb, ctx: SbCtx, brk: bool) -> (r: SbCtx)
    ensures
        r == next_ctx(x, ctx, brk),
{
    match x {
        Sb::ATerm => SbCtx::SATerm { is_aterm: true, after_close: false },
        Sb::STerm => SbCtx::SATerm { is_aterm: false, after_close: false },
        Sb::Close => match ctx {
            SbCtx::SATerm { is_aterm, after_close: _ } => if !brk {
                SbCtx::SATerm { is_aterm, after_close: true }
            } else {
                SbCtx::Outside
            },
            _ => SbCtx::Outside,
        },
        Sb::Sp => match ctx {
            SbCtx::SATerm { is_aterm, after_close: _ } => if !brk { SbCtx::SATermSp { is_aterm } } else { SbCtx::Outside },
            SbCtx::SATermSp { is_aterm: _ } => if !brk { ctx } else { SbCtx::Outside },
            SbCtx::Outside => SbCtx::Outside,
        },
        _ => SbCtx::Outside,
    }
}

fn classes_of(cs: &Vec<char>) -> (w: Vec<Sb>)
    ensures
        w@ == sb_classes(cs@),
{
    let mut w: Vec<Sb> = Vec::new();
    let mut k: usize = 0;
    while k < cs.len()
        invariant
            k <= cs@.len(),
            w@.len() == k,
            forall|j: int| 0 <= j < k ==> #[trigger] w@[j] == spec_sb(cs@[j]),
        decreases cs@.len() - k,
    {
        w.push(sb(cs[k]));
        k += 1;
    }
    proof {
        assert(w@ == sb_classes(cs@));
    }
    w
}

/// Sentence starts from `sb_run` are strictly increasing and below `k`.
proof fn lemma_sb_run(s: Seq<Sb>, k: int)
    requires
        1 <= k <= s.len(),
    ensures
        sb_run(s, k).0.len() > 0,
        sb_run(s, k).0[0] == 0,
        forall|a: int| 0 <= a < sb_run(s, k).0.len() ==> 0 <= #[trigger] sb_run(s, k).0[a] < k,
        forall|a: int, b: int| 0 <= a < b < sb_run(s, k).0.len() ==> sb_run(s, k).0[a] < sb_run(s, k).0[b],
    decreases k,
{
    if k > 1 {
        lemma_sb_run(s, k - 1);
    }
}

/// Byte offsets of the sentence starts of `s`; the first is 0. The locale
/// is not used (no tailoring).
pub fn sentence_boundaries(s: &str, locale: Option<&str>) -> (v: Vec<usize>)
    ensures
        v@ == sentence_starts(s@).map_values(|i: int| byte_pos(s@, i) as usize),
        v@.len() > 0 && v@[0] == 0,
        forall|a: int, b: int| 0 <= a < b < v@.len() ==> v@[a] < v@[b],
        s@.len() > 0 ==> forall|a: int| 0 <= a < v@.len() ==> #[trigger] v@[a] < byte_len(s@),
        forall|a: int| 0 <= a < v@.len() ==> is_char_start(s@, #[trigger] v@[a] as int),
        forall|k: int| 0 < k < s@.len() && #[trigger] after_separator(s@, k) ==> v@.contains(byte_pos(s@, k) as usize),
        (forall|j: int| 0 <= j < s@.len() ==> !is_sentence_end_class(spec_sb(#[trigger] s@[j]))) ==> v@ == seq![0usize],
{
    let cs = chars_of(s);
    let n = cs.len();
    let ghost g = cs@;
    if n == 0 {
        let mut out: Vec<usize> = Vec::new();
        out.push(0);
        proof {
            assert(out@ == sentence_starts(g).map_values(|i: int| byte_pos(g, i) as usize));
        }
        return out;
    }
    let _total = str_len(s);
    let sbs = classes_of(&cs);
    let ghost w = sbs@;
    let offsets = byte_offsets(&cs);
    let mut out: Vec<usize> = Vec::new();
    out.push(0);
    let mut st = start_state(sbs[0], None);
    proof {
        assert(out@ == sb_run(w, 1).0.map_values(|i: int| byte_pos(g, i) as usize));
    }
    let mut i: usize = 1;
    while i < n
        invariant
            n == g.len(),
            g == cs@,
            w == sbs@,
            w == sb_classes(g),
            offsets@.len() == n + 1,
            forall|k: int| 0 <= k <= n ==> #[trigger] offsets@[k] == byte_pos(g, k),
            1 <= i <= n,
            out@ == sb_run(w, i as int).0.map_values(|i: int| byte_pos(g, i) as usize),
            st == sb_run(w, i as int).1,
        decreases n - i,
    {
        let p = sbs[i - 1];
        let x = sbs[i];
        let (brk, st2) = if p == Sb::Cr && x == Sb::Lf {
            (false, st)
        } else if p == Sb::Sep || p == Sb::Cr || p == Sb::Lf {
            (true, start_state(x, st.before_saterm))
        } else if is_transparent_exec(x) {
            (false, st)
        } else {
            let brk = apply_sb_rules(&sbs, i, st);
            let before = if x == Sb::ATerm || x == Sb::STerm { st.last_resolved } else { st.before_saterm };
            (brk, SbState { ctx: advance_ctx(x, st.ctx, brk), before_saterm: before, last_resolved: Some(x) })
        };
        proof {
            assert(sb_step(w, i as int, st) == (brk, st2));
        }
        if brk {
            out.push(offsets[i]);
        }
        st = st2;
        i += 1;
        proof {
            let prev_b = sb_run(w, i - 1).0;
            if brk {
                assert(out@ == prev_b.push(i - 1).map_values(|i: int| byte_pos(g, i) as usize));
            }
        }
    }
    proof {
        lemma_sb_run(w, n as int);
        let ws = sb_run(w, n as int).0;
        assert forall|a: int, b: int| 0 <= a < b < out@.len() implies out@[a] < out@[b] by {
            lemma_byte_pos_mono(g, ws[a], ws[b]);
            lemma_byte_pos_mono(g, ws[b], n as int);
            assert(out@[a] == byte_pos(g, ws[a]) as usize);
            assert(out@[b] == byte_pos(g, ws[b]) as usize);
        }
        assert forall|a: int| 0 <= a < out@.len() implies #[trigger] out@[a] < byte_len(g) by {
            lemma_byte_pos_mono(g, ws[a], n as int);
            assert(out@[a] == byte_pos(g, ws[a]) as usize);
        }
        assert forall|a: int| 0 <= a < out@.len() implies is_char_start(g, #[trigger] out@[a] as int) by {
            lemma_char_start_at(g, ws[a]);
            assert(out@[a] == byte_pos(g, ws[a]) as usize);
        }
    }
    proof {
        assert forall|k: int| 0 < k < g.len() && #[trigger] after_separator(g, k) implies out@.contains(byte_pos(g, k) as usize) by {
            lemma_sentence_starts_after_separator(g, k);
            let ss = sentence_starts(g);
            let t = choose|t: int| 0 <= t < ss.len() && ss[t] == k;
            assert(out@[t] == byte_pos(g, k) as usize);
        }
        if forall|j: int| 0 <= j < g.len() ==> !is_sentence_end_class(spec_sb(#[trigger] g[j])) {
            lemma_one_sentence(g);
            assert(out@ =~= seq![0usize]);
        }
    }
    out
}

} // verus!

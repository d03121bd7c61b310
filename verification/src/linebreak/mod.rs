//! UAX #14: Unicode Line Breaking Algorithm.
//!
//! Break opportunities per LB1-LB31; SA (complex context) characters are
//! treated as AL or CM unless dictionary segmentation refines them.
use vstd::prelude::*;

pub mod classes;
pub mod dictionary;
pub mod rules;

use crate::data::line_break::{lb, spec_lb, Lb};
use crate::text::{byte_len, byte_offsets, byte_pos, chars_of, is_char_start, lemma_byte_pos_mono, str_len};
use self::classes::{after_qu_pi_sp, after_target_sp, eff_class, eff_classes, effective_classes, in_numeric, is_cm, resolve_lb1,
    spec_resolve_lb1};
use self::dictionary::{dict_max, dict_words, language_for_codepoint, Dictionaries, seg_from, segment_range,
    spec_language_for, lemma_seg_from, DictLanguage};
use self::rules::{decide, lb_decide, lb_head};

pub use self::rules::BreakAction;

verus! {

/// The LB1 classes of `cs`.
pub open spec fn lb_classes(cs: Seq<char>) -> Seq<Lb> {
    cs.map_values(|c: char| spec_resolve_lb1(c))
}

/// The code points of `cs`.
pub open spec fn code_points(cs: Seq<char>) -> Seq<u32> {
    cs.map_values(|c: char| c as u32)
}

/// The actions between positions `i` and `i + 1` for `i < k`, and the
/// `ZW SP*` state after them.
pub open spec fn lb_fold(cs: Seq<char>, k: int) -> (Seq<BreakAction>, bool)
    decreases k,
{
    if k <= 0 {
        (Seq::empty(), false)
    } else {
        let (a, zw) = lb_fold(cs, k - 1);
        let cls = lb_classes(cs);
        let (d, zw2) = lb_decide(cls, eff_classes(cls), code_points(cs), k - 1, zw);
        (a.push(d), zw2)
    }
}

/// The action before each character position of `cs`, end included: no
/// break at the start (LB2), a mandatory break at the end (LB3), and the
/// rules in between. The empty text has a single mandatory break.
pub open spec fn char_actions(cs: Seq<char>) -> Seq<BreakAction> {
    if cs.len() == 0 {
        seq![BreakAction::Mandatory]
    } else {
        seq![BreakAction::Prohibited] + lb_fold(cs, cs.len() - 1).0 + seq![BreakAction::Mandatory]
    }
}

/// What the byte-indexed break table of `cs` holds: the action of each
/// character position at its byte offset, and Prohibited elsewhere.
pub open spec fn breaks_ok(cs: Seq<char>, acts: Seq<BreakAction>, r: Seq<BreakAction>) -> bool {
    &&& acts.len() == cs.len() + 1
    &&& r.len() == byte_len(cs) + 1
    &&& forall|k: int| 0 <= k <= cs.len() ==> r[byte_pos(cs, k) as int] == #[trigger] acts[k]
    &&& forall|p: int| 0 <= p < r.len() && !is_char_start(cs, p) ==> #[trigger] r[p] == BreakAction::Prohibited
}

fn classes_of(cs: &Vec<char>) -> (r: (Vec<Lb>, Vec<u32>))
    ensures
        r.0@ == lb_classes(cs@),
        r.1@ == code_points(cs@),
{
    let mut cls: Vec<Lb> = Vec::new();
    let mut cps: Vec<u32> = Vec::new();
    let mut k: usize = 0;
    while k < cs.len()
        invariant
            k <= cs@.len(),
            cls@.len() == k,
            cps@.len() == k,
            forall|j: int| 0 <= j < k ==> #[trigger] cls@[j] == spec_resolve_lb1(cs@[j]),
            forall|j: int| 0 <= j < k ==> #[trigger] cps@[j] == cs@[j] as u32,
        decreases cs@.len() - k,
    {
        cls.push(resolve_lb1(cs[k]));
        cps.push(cs[k] as u32);
        k += 1;
    }
    proof {
        assert(cls@ == lb_classes(cs@));
        assert(cps@ == code_points(cs@));
    }
    (cls, cps)
}

/// All line break opportunities of `text`, indexed by byte offset: the
/// result has `text.len() + 1` entries; offsets inside a character are
/// Prohibited.
pub fn line_break_opportunities(text: &str) -> (breaks: Vec<BreakAction>)
    ensures
        breaks_ok(text@, char_actions(text@), breaks@),
        breaks@.len() == byte_len(text@) + 1,
        breaks@[byte_len(text@) as int] == BreakAction::Mandatory,
        text@.len() > 0 ==> breaks@[0] == BreakAction::Prohibited,
{
    let cs = chars_of(text);
    let len = str_len(text);
    let n = cs.len();
    let ghost g = cs@;
    let mut breaks: Vec<BreakAction> = Vec::new();
    while breaks.len() < len
        invariant
            breaks@.len() <= len,
            len == byte_len(g),
            forall|q: int| 0 <= q < breaks@.len() ==> #[trigger] breaks@[q] == BreakAction::Prohibited,
        decreases len - breaks@.len(),
    {
        breaks.push(BreakAction::Prohibited);
    }
    breaks.push(BreakAction::Prohibited);
    proof {
        lemma_byte_pos_mono(g, 0, n as int);
    }
    if n == 0 {
        breaks.set(0, BreakAction::Mandatory);
        proof {
            assert forall|q: int| 0 <= q < breaks@.len() && !is_char_start(g, q)
                implies #[trigger] breaks@[q] == BreakAction::Prohibited by {
                assert(byte_pos(g, 0) == 0);
            }
            assert(byte_len(g) == 0);
        }
        return breaks;
    }
    let (cls, cps) = classes_of(&cs);
    let eff = effective_classes(&cls);
    let offsets = byte_offsets(&cs);
    breaks.set(len, BreakAction::Mandatory);
    let mut zw = false;
    let mut i: usize = 0;
    while i + 1 < n
        invariant
            n == g.len(),
            n >= 1,
            g == cs@,
            cls@ == lb_classes(g),
            eff@ == eff_classes(cls@),
            cps@ == code_points(g),
            offsets@.len() == n + 1,
            forall|k: int| 0 <= k <= n ==> #[trigger] offsets@[k] == byte_pos(g, k),
            len == byte_len(g),
            breaks@.len() == len + 1,
            i + 1 <= n,
            zw == lb_fold(g, i as int).1,
            lb_fold(g, i as int).0.len() == i,
            forall|k: int| 1 <= k <= i ==> breaks@[byte_pos(g, k) as int] == #[trigger] lb_fold(g, i as int).0[k - 1],
            breaks@[len as int] == BreakAction::Mandatory,
            forall|q: int| 0 <= q < len && (forall|k: int| 1 <= k <= i ==> byte_pos(g, k) != q)
                ==> #[trigger] breaks@[q] == BreakAction::Prohibited,
        decreases n - i,
    {
        let (d, zw2) = decide(&cls, &eff, &cps, i, zw);
        let ghost before = breaks@;
        let ghost f = lb_fold(g, i as int).0;
        proof {
            lemma_byte_pos_mono(g, i + 1, n as int);
        }
        breaks.set(offsets[i + 1], d);
        zw = zw2;
        i += 1;
        proof {
            let f2 = lb_fold(g, i as int).0;
            assert(f2 == f.push(d));
            assert forall|k: int| 1 <= k <= i implies breaks@[byte_pos(g, k) as int] == #[trigger] f2[k - 1] by {
                if k < i {
                    lemma_byte_pos_mono(g, k, i as int);
                    lemma_byte_pos_mono(g, i as int, n as int);
                }
            }
            assert forall|q: int| 0 <= q < len && (forall|k: int| 1 <= k <= i ==> byte_pos(g, k) != q)
                implies #[trigger] breaks@[q] == BreakAction::Prohibited by {
                assert(byte_pos(g, i as int) != q);
            }
        }
    }
    proof {
        let acts = char_actions(g);
        let f = lb_fold(g, n - 1).0;
        assert(i == n - 1);
        assert(acts.len() == n + 1);
        assert forall|k: int| 0 <= k <= n implies breaks@[byte_pos(g, k) as int] == #[trigger] acts[k] by {
            if k == 0 {
                assert forall|j: int| 1 <= j <= i implies byte_pos(g, j) != 0 by {
                    lemma_byte_pos_mono(g, 0, j);
                }
                lemma_byte_pos_mono(g, 0, n as int);
            } else if k == n {
            } else {
                assert(acts[k] == f[k - 1]);
            }
        }
        assert(acts[0] == BreakAction::Prohibited);
        assert(acts[n as int] == BreakAction::Mandatory);
        assert(byte_pos(g, 0) == 0);
        assert forall|q: int| 0 <= q < breaks@.len() && !is_char_start(g, q)
            implies #[trigger] breaks@[q] == BreakAction::Prohibited by {
            assert(byte_pos(g, n as int) == len);
            assert forall|k: int| 1 <= k <= i implies byte_pos(g, k) != q by {
                if byte_pos(g, k) == q {
                    assert(is_char_start(g, q));
                }
            }
        }
    }
    breaks
}


/// The dictionary language of an SA character (none for other classes).
pub open spec fn sa_lang(c: char) -> Option<DictLanguage> {
    if spec_lb(c) == Lb::SA { spec_language_for(c as u32) } else { None }
}

/// The end of the run of SA characters of language `lang` from `j` on.
pub open spec fn sa_run_end(cs: Seq<char>, j: int, lang: DictLanguage) -> int
    decreases cs.len() - j,
{
    if j < 0 || j >= cs.len() || sa_lang(cs[j]) != Some(lang) {
        j
    } else {
        sa_run_end(cs, j + 1, lang)
    }
}

pub proof fn lemma_sa_run_end(cs: Seq<char>, j: int, lang: DictLanguage)
    requires
        0 <= j <= cs.len(),
    ensures
        j <= sa_run_end(cs, j, lang) <= cs.len(),
        forall|q: int| j <= q < sa_run_end(cs, j, lang) ==> sa_lang(#[trigger] cs[q]) == Some(lang),
    decreases cs.len() - j,
{
    if j < cs.len() && sa_lang(cs[j]) == Some(lang) {
        lemma_sa_run_end(cs, j + 1, lang);
    }
}

/// Inside the run `(i, e)`, breaks that are not mandatory become allowed at
/// the word starts and prohibited elsewhere.
pub open spec fn apply_run(acts: Seq<BreakAction>, i: int, e: int, starts: Seq<int>) -> Seq<BreakAction> {
    Seq::new(acts.len(), |p: int|
        if i < p < e && acts[p] != BreakAction::Mandatory {
            if starts.contains(p) { BreakAction::Allowed } else { BreakAction::Prohibited }
        } else {
            acts[p]
        })
}

/// Dictionary refinement of the actions of `cs` from position `i` on: each
/// run of SA characters of one language is segmented into words with the
/// dictionary of that language in `ds`.
pub open spec fn dict_pass(cs: Seq<char>, ds: Dictionaries, acts: Seq<BreakAction>, i: int) -> Seq<BreakAction>
    decreases cs.len() - i,
{
    if i < 0 || i >= cs.len() {
        acts
    } else {
        match sa_lang(cs[i]) {
            None => dict_pass(cs, ds, acts, i + 1),
            Some(lang) => {
                proof {
                    lemma_sa_run_end(cs, i + 1, lang);
                }
                let e = sa_run_end(cs, i + 1, lang);
                dict_pass(cs, ds, apply_run(acts, i, e, seg_from(cs, e, dict_words(ds, lang), dict_max(ds, lang), i)), e)
            },
        }
    }
}

proof fn lemma_breaks_ok_set(cs: Seq<char>, acts: Seq<BreakAction>, r: Seq<BreakAction>, p: int, a: BreakAction)
    requires
        breaks_ok(cs, acts, r),
        0 <= p <= cs.len(),
    ensures
        breaks_ok(cs, acts.update(p, a), r.update(byte_pos(cs, p) as int, a)),
{
    let r2 = r.update(byte_pos(cs, p) as int, a);
    let a2 = acts.update(p, a);
    lemma_byte_pos_mono(cs, p, cs.len() as int);
    assert forall|k: int| 0 <= k <= cs.len() implies r2[byte_pos(cs, k) as int] == #[trigger] a2[k] by {
        if k < p {
            lemma_byte_pos_mono(cs, k, p);
        } else if k > p {
            lemma_byte_pos_mono(cs, p, k);
        }
        lemma_byte_pos_mono(cs, k, cs.len() as int);
    }
    assert forall|q: int| 0 <= q < r2.len() && !is_char_start(cs, q) implies #[trigger] r2[q] == BreakAction::Prohibited by {
        if q == byte_pos(cs, p) {
            assert(is_char_start(cs, q));
        }
    }
}

fn vec_contains(v: &Vec<usize>, x: usize) -> (r: bool)
    ensures
        r == v@.map_values(|p: usize| p as int).contains(x as int),
{
    let ghost m = v@.map_values(|p: usize| p as int);
    let mut k: usize = 0;
    while k < v.len()
        invariant
            k <= v@.len(),
            m == v@.map_values(|p: usize| p as int),
            forall|j: int| 0 <= j < k ==> v@[j] != x,
        decreases v@.len() - k,
    {
        if v[k] == x {
            proof {
                assert(m[k as int] == x as int);
            }
            return true;
        }
        k += 1;
    }
    proof {
        if m.contains(x as int) {
            let j = choose|j: int| 0 <= j < m.len() && m[j] == x as int;
            assert(v@[j] == x);
        }
    }
    false
}

fn sa_language(c: char) -> (r: Option<DictLanguage>)
    ensures
        r == sa_lang(c),
{
    if lb(c) == Lb::SA { language_for_codepoint(c as u32) } else { None }
}

/// Refine `breaks` (the table of `cs`) by dictionary segmentation of its SA
/// runs.
fn apply_dictionary_breaks(
    cs: &Vec<char>,
    offs: &Vec<usize>,
    dicts: &Dictionaries,
    breaks: &mut Vec<BreakAction>,
    Ghost(acts): Ghost<Seq<BreakAction>>,
)
    requires
        breaks_ok(cs@, acts, old(breaks)@),
        offs@.len() == cs@.len() + 1,
        forall|k: int| 0 <= k <= cs@.len() ==> #[trigger] offs@[k] == byte_pos(cs@, k),
    ensures
        breaks_ok(cs@, dict_pass(cs@, *dicts, acts, 0), final(breaks)@),
{
    let n = cs.len();
    let ghost g = cs@;
    let ghost mut cur = acts;
    let mut i: usize = 0;
    while i < n
        invariant
            n == g.len(),
            g == cs@,
            i <= n,
            offs@.len() == n + 1,
            forall|k: int| 0 <= k <= n ==> #[trigger] offs@[k] == byte_pos(g, k),
            breaks_ok(g, cur, breaks@),
            dict_pass(g, *dicts, cur, i as int) == dict_pass(g, *dicts, acts, 0),
        decreases n - i,
    {
        match sa_language(cs[i]) {
            None => {
                i += 1;
            },
            Some(lang) => {
                let mut e = i + 1;
                while e < n && sa_language(cs[e]) == Some(lang)
                    invariant
                        i < e <= n,
                        n == g.len(),
                        g == cs@,
                        sa_run_end(g, e as int, lang) == sa_run_end(g, i + 1, lang),
                    decreases n - e,
                {
                    e += 1;
                }
                let d = dicts.get_dict(lang);
                let starts = segment_range(cs, offs, i, e, d);
                let ghost st = seg_from(g, e as int, dict_words(*dicts, lang), dict_max(*dicts, lang), i as int);
                let ghost target = apply_run(cur, i as int, e as int, st);
                let ghost c0 = cur;
                let mut p = i + 1;
                while p < e
                    invariant
                        i < p <= e <= n,
                        n == g.len(),
                        g == cs@,
                        offs@.len() == n + 1,
                        forall|k: int| 0 <= k <= n ==> #[trigger] offs@[k] == byte_pos(g, k),
                        starts@.map_values(|q: usize| q as int) == st,
                        target == apply_run(c0, i as int, e as int, st),
                        c0.len() == n + 1,
                        cur.len() == n + 1,
                        forall|q: int| 0 <= q < p ==> #[trigger] cur[q] == target[q],
                        forall|q: int| p <= q <= n ==> #[trigger] cur[q] == c0[q],
                        breaks_ok(g, cur, breaks@),
                    decreases e - p,
                {
                    proof {
                        lemma_byte_pos_mono(g, p as int, n as int);
                    }
                    let here = breaks[offs[p]];
                    let a = if here == BreakAction::Mandatory {
                        BreakAction::Mandatory
                    } else if vec_contains(&starts, p) {
                        BreakAction::Allowed
                    } else {
                        BreakAction::Prohibited
                    };
                    proof {
                        assert(here == cur[p as int]);
                        lemma_breaks_ok_set(g, cur, breaks@, p as int, a);
                        cur = cur.update(p as int, a);
                    }
                    breaks.set(offs[p], a);
                    p += 1;
                }
                proof {
                    assert(cur =~= target);
                    lemma_sa_run_end(g, i + 1, lang);
                }
                i = e;
            },
        }
    }
}

/// The dictionary pass keeps the action at the start, at the end, and at
/// every mandatory break.
pub proof fn lemma_dict_pass_keeps(cs: Seq<char>, ds: Dictionaries, acts: Seq<BreakAction>, i: int)
    requires
        0 <= i,
        acts.len() == cs.len() + 1,
    ensures
        dict_pass(cs, ds, acts, i).len() == acts.len(),
        dict_pass(cs, ds, acts, i)[0] == acts[0],
        dict_pass(cs, ds, acts, i)[cs.len() as int] == acts[cs.len() as int],
        forall|p: int| 0 <= p < acts.len()
            ==> (#[trigger] dict_pass(cs, ds, acts, i)[p] == BreakAction::Mandatory <==> acts[p] == BreakAction::Mandatory),
    decreases cs.len() - i,
{
    if i < cs.len() {
        match sa_lang(cs[i]) {
            None => {
                lemma_dict_pass_keeps(cs, ds, acts, i + 1);
            },
            Some(lang) => {
                lemma_sa_run_end(cs, i + 1, lang);
                let e = sa_run_end(cs, i + 1, lang);
                let a2 = apply_run(acts, i, e, seg_from(cs, e, dict_words(ds, lang), dict_max(ds, lang), i));
                lemma_dict_pass_keeps(cs, ds, a2, e);
            },
        }
    }
}

/// Line break opportunities of `text` with the SA runs (Thai, Lao, Khmer,
/// Myanmar) refined by dictionary segmentation.
pub fn line_break_opportunities_with_dictionary(text: &str, dicts: &Dictionaries) -> (breaks: Vec<BreakAction>)
    ensures
        breaks_ok(text@, dict_pass(text@, *dicts, char_actions(text@), 0), breaks@),
        breaks@.len() == byte_len(text@) + 1,
        breaks@[byte_len(text@) as int] == BreakAction::Mandatory,
        text@.len() > 0 ==> breaks@[0] == BreakAction::Prohibited,
{
    let mut breaks = line_break_opportunities(text);
    let cs = chars_of(text);
    let _len = str_len(text);
    let offs = byte_offsets(&cs);
    apply_dictionary_breaks(&cs, &offs, dicts, &mut breaks, Ghost(char_actions(text@)));
    proof {
        let g = text@;
        let acts = char_actions(g);
        lemma_dict_pass_keeps(g, *dicts, acts, 0);
        let d = dict_pass(g, *dicts, acts, 0);
        assert(breaks@[byte_pos(g, g.len() as int) as int] == d[g.len() as int]);
        assert(breaks@[byte_pos(g, 0) as int] == d[0]);
        if g.len() > 0 {
            assert(acts[0] == BreakAction::Prohibited);
        }
        assert(acts[g.len() as int] == BreakAction::Mandatory);
    }
    breaks
}

/// The dictionary pass changes nothing on text with no character of a
/// dictionary script (class SA in Thai, Lao, Khmer or Myanmar).
pub proof fn lemma_dict_pass_no_sa(cs: Seq<char>, ds: Dictionaries, acts: Seq<BreakAction>, i: int)
    requires
        forall|j: int| 0 <= j < cs.len() ==> sa_lang(#[trigger] cs[j]) is None,
    ensures
        dict_pass(cs, ds, acts, i) == acts,
    decreases cs.len() - i,
{
    if 0 <= i < cs.len() {
        assert(sa_lang(cs[i]) is None);
        lemma_dict_pass_no_sa(cs, ds, acts, i + 1);
    }
}

/// The byte-indexed break table is determined by the actions.
pub proof fn lemma_breaks_ok_unique(cs: Seq<char>, acts: Seq<BreakAction>, r1: Seq<BreakAction>, r2: Seq<BreakAction>)
    requires
        breaks_ok(cs, acts, r1),
        breaks_ok(cs, acts, r2),
    ensures
        r1 == r2,
{
    assert forall|p: int| 0 <= p < r1.len() implies r1[p] == r2[p] by {
        if is_char_start(cs, p) {
            let k = choose|k: int| 0 <= k <= cs.len() && byte_pos(cs, k) == p;
            assert(r1[byte_pos(cs, k) as int] == acts[k]);
            assert(r2[byte_pos(cs, k) as int] == acts[k]);
        }
    }
    assert(r1 =~= r2);
}

/// The dictionary pass keeps the break table's length and its mandatory
/// breaks: a position is a mandatory break with the dictionaries exactly
/// when it is one without them.
pub proof fn lemma_dictionary_keeps_mandatory(
    cs: Seq<char>,
    ds: Dictionaries,
    plain: Seq<BreakAction>,
    with_dict: Seq<BreakAction>,
)
    requires
        breaks_ok(cs, char_actions(cs), plain),
        breaks_ok(cs, dict_pass(cs, ds, char_actions(cs), 0), with_dict),
    ensures
        with_dict.len() == plain.len(),
        forall|p: int| 0 <= p < plain.len()
            ==> (#[trigger] with_dict[p] == BreakAction::Mandatory <==> plain[p] == BreakAction::Mandatory),
{
    let acts = char_actions(cs);
    lemma_dict_pass_keeps(cs, ds, acts, 0);
    let d = dict_pass(cs, ds, acts, 0);
    assert forall|p: int| 0 <= p < plain.len()
        implies (#[trigger] with_dict[p] == BreakAction::Mandatory <==> plain[p] == BreakAction::Mandatory) by {
        if is_char_start(cs, p) {
            let k = choose|k: int| 0 <= k <= cs.len() && byte_pos(cs, k) == p;
            assert(with_dict[byte_pos(cs, k) as int] == d[k]);
            assert(plain[byte_pos(cs, k) as int] == acts[k]);
        }
    }
}

/// Text with no character of a dictionary script gets the same break
/// opportunities with the dictionaries as without them, whatever they hold.
pub proof fn lemma_dictionary_breaks_without_sa(cs: Seq<char>, ds: Dictionaries, plain: Seq<BreakAction>, with_dict: Seq<BreakAction>)
    requires
        forall|j: int| 0 <= j < cs.len() ==> sa_lang(#[trigger] cs[j]) is None,
        breaks_ok(cs, char_actions(cs), plain),
        breaks_ok(cs, dict_pass(cs, ds, char_actions(cs), 0), with_dict),
    ensures
        plain == with_dict,
{
    lemma_dict_pass_no_sa(cs, ds, char_actions(cs), 0);
    lemma_breaks_ok_unique(cs, char_actions(cs), plain, with_dict);
}


/// Whether position `i` of `cls` ends a run `ZW SP*`: a ZW at or before
/// `i` with only spaces after it up to `i`.
pub open spec fn ends_zw_spaces(cls: Seq<Lb>, i: int) -> bool {
    exists|j: int| 0 <= j <= i && cls[j] == Lb::ZW && forall|m: int| j < m <= i ==> #[trigger] cls[m] == Lb::SP
}

/// Whether `c` is a hard line break class.
pub open spec fn is_hard_break(c: Lb) -> bool {
    c == Lb::BK || c == Lb::CR || c == Lb::LF || c == Lb::NL
}

/// The `ZW SP*` state that one decision hands on is set only by a ZW or a
/// space after ZW, kept across spaces, or kept before a hard break.
proof fn lemma_decide_state(cls: Seq<Lb>, eff: Seq<Lb>, cps: Seq<u32>, i: int, zw: bool)
    requires
        0 <= i,
        i + 1 < cls.len(),
    ensures
        lb_decide(cls, eff, cps, i, zw).1 ==> is_hard_break(cls[i + 1]) || cls[i + 1] == Lb::ZW
            || (cls[i + 1] == Lb::SP && (cls[i] == Lb::ZW || (zw && !is_hard_break(cls[i])))),
{
    match lb_head(cls, i, zw) {
        Some(r) => {},
        None => {
            assert(!zw);
        },
    }
}

/// The state carried from position to position is set only right after
/// `ZW SP*` (or before a hard break, which ends it).
#[verifier::spinoff_prover]
proof fn lemma_lb_fold_state(cs: Seq<char>, k: int)
    requires
        0 <= k < cs.len(),
    ensures
        lb_fold(cs, k).0.len() == k,
        lb_fold(cs, k).1 ==> is_hard_break(lb_classes(cs)[k]) || ends_zw_spaces(lb_classes(cs), k),
    decreases k,
{
    if k > 0 {
        lemma_lb_fold_state(cs, k - 1);
        let cls = lb_classes(cs);
        let zw = lb_fold(cs, k - 1).1;
        lemma_decide_state(cls, eff_classes(cls), code_points(cs), k - 1, zw);
        let zw2 = lb_fold(cs, k).1;
        assert(zw2 == lb_decide(cls, eff_classes(cls), code_points(cs), k - 1, zw).1);
        let cb = cls[k - 1];
        let ca = cls[k];
        if zw2 && !is_hard_break(ca) {
            if ca == Lb::ZW {
                assert(ends_zw_spaces(cls, k));
            } else if cb == Lb::ZW {
                assert(ca == Lb::SP);
                assert(ends_zw_spaces(cls, k));
            } else {
                assert(zw && !is_hard_break(cb) && ca == Lb::SP);
                let j = choose|j: int| 0 <= j <= k - 1 && cls[j] == Lb::ZW
                    && forall|m: int| j < m <= k - 1 ==> #[trigger] cls[m] == Lb::SP;
                assert forall|m: int| j < m <= k implies #[trigger] cls[m] == Lb::SP by {
                    if m < k {
                        assert(cls[m] == Lb::SP);
                    }
                }
            }
        }
    }
}

proof fn lemma_lb_fold_prefix(cs: Seq<char>, m: int, i: int)
    requires
        0 <= i < m,
    ensures
        lb_fold(cs, m).0.len() == m,
        lb_fold(cs, m).0[i] == lb_fold(cs, i + 1).0[i],
    decreases m,
{
    lemma_lb_fold_len(cs, m - 1);
    if i < m - 1 {
        lemma_lb_fold_prefix(cs, m - 1, i);
    }
}

proof fn lemma_lb_fold_len(cs: Seq<char>, m: int)
    requires
        0 <= m,
    ensures
        lb_fold(cs, m).0.len() == m,
    decreases m,
{
    if m > 0 {
        lemma_lb_fold_len(cs, m - 1);
    }
}

/// The action before character position `k` inside the text is the
/// decision between `k - 1` and `k`, from the state after the positions
/// before it.
#[verifier::spinoff_prover]
proof fn lemma_action_at(cs: Seq<char>, k: int)
    requires
        0 < k < cs.len(),
    ensures
        char_actions(cs).len() == cs.len() + 1,
        char_actions(cs)[k] == lb_decide(lb_classes(cs), eff_classes(lb_classes(cs)), code_points(cs), k - 1,
            lb_fold(cs, k - 1).1).0,
        lb_fold(cs, k - 1).1 ==> is_hard_break(lb_classes(cs)[k - 1]) || lb_classes(cs)[k - 1] == Lb::ZW
            || lb_classes(cs)[k - 1] == Lb::SP,
        lb_fold(cs, k - 1).1 ==> is_hard_break(lb_classes(cs)[k - 1]) || ends_zw_spaces(lb_classes(cs), k - 1),
{
    let cls = lb_classes(cs);
    let n = cs.len() as int;
    lemma_lb_fold_len(cs, n - 1);
    lemma_lb_fold_prefix(cs, n - 1, k - 1);
    lemma_lb_fold_state(cs, k - 1);
    let f = lb_fold(cs, n - 1).0;
    assert(char_actions(cs) == seq![BreakAction::Prohibited] + f + seq![BreakAction::Mandatory]);
    assert(char_actions(cs)[k] == f[k - 1]);
    if lb_fold(cs, k - 1).1 && !is_hard_break(cls[k - 1]) {
        let j = choose|j: int| 0 <= j <= k - 1 && cls[j] == Lb::ZW
            && forall|m: int| j < m <= k - 1 ==> #[trigger] cls[m] == Lb::SP;
        if j < k - 1 {
            assert(cls[k - 1] == Lb::SP);
        }
    }
}

/// LB13 (with LB8): there is no break opportunity before a closing
/// punctuation (CL), closing parenthesis (CP), exclamation or
/// interrogation (EX) or symbol allowing break after (SY), unless it
/// follows a zero width space and spaces (`ZW SP*`); a hard line break
/// before it makes the break mandatory, never a mere opportunity.
#[verifier::spinoff_prover]
pub proof fn lemma_no_break_before_closing(cs: Seq<char>, k: int)
    requires
        0 < k < cs.len(),
        lb_classes(cs)[k] == Lb::CL || lb_classes(cs)[k] == Lb::CP || lb_classes(cs)[k] == Lb::EX
            || lb_classes(cs)[k] == Lb::SY,
    ensures
        char_actions(cs).len() == cs.len() + 1,
        char_actions(cs)[k] == BreakAction::Allowed ==> ends_zw_spaces(lb_classes(cs), k - 1),
{
    let cls = lb_classes(cs);
    lemma_action_at(cs, k);
    assert(eff_classes(cls)[k] == cls[k]);
    if char_actions(cs)[k] == BreakAction::Allowed && cls[k - 1] == Lb::ZW {
        assert(ends_zw_spaces(cls, k - 1));
    }
}

/// LB11: no break opportunity before a word joiner (WJ) except after
/// `ZW SP*`, and none after it; LB12: none after a non-breaking glue (GL).
#[verifier::spinoff_prover]
pub proof fn lemma_no_break_around_joiners(cs: Seq<char>, k: int)
    requires
        0 < k < cs.len(),
    ensures
        char_actions(cs).len() == cs.len() + 1,
        lb_classes(cs)[k] == Lb::WJ && char_actions(cs)[k] == BreakAction::Allowed
            ==> ends_zw_spaces(lb_classes(cs), k - 1),
        lb_classes(cs)[k - 1] == Lb::WJ || lb_classes(cs)[k - 1] == Lb::GL
            ==> char_actions(cs)[k] == BreakAction::Prohibited,
{
    let cls = lb_classes(cs);
    lemma_action_at(cs, k);
    assert(eff_classes(cls)[k] == eff_class(cls, k));
    assert(eff_classes(cls)[k - 1] == cls[k - 1] || is_cm(cls[k - 1]));
    if cls[k] == Lb::WJ && char_actions(cs)[k] == BreakAction::Allowed && cls[k - 1] == Lb::ZW {
        assert(ends_zw_spaces(cls, k - 1));
    }
}

/// LB4, LB5: a mandatory break after BK, LF, NL, and after CR unless LF
/// follows; none between CR and LF. LB6, LB7: no break before a hard
/// line break, a space or a zero width space (other than the mandatory
/// one after a hard break).
#[verifier::spinoff_prover]
pub proof fn lemma_hard_breaks_and_spaces(cs: Seq<char>, k: int)
    requires
        0 < k < cs.len(),
    ensures
        char_actions(cs).len() == cs.len() + 1,
        lb_classes(cs)[k - 1] == Lb::BK || lb_classes(cs)[k - 1] == Lb::LF || lb_classes(cs)[k - 1] == Lb::NL
            || (lb_classes(cs)[k - 1] == Lb::CR && lb_classes(cs)[k] != Lb::LF)
            ==> char_actions(cs)[k] == BreakAction::Mandatory,
        lb_classes(cs)[k - 1] == Lb::CR && lb_classes(cs)[k] == Lb::LF
            ==> char_actions(cs)[k] == BreakAction::Prohibited,
        !is_hard_break(lb_classes(cs)[k - 1]) && (is_hard_break(lb_classes(cs)[k])
            || lb_classes(cs)[k] == Lb::SP || lb_classes(cs)[k] == Lb::ZW)
            ==> char_actions(cs)[k] == BreakAction::Prohibited,
{
    lemma_action_at(cs, k);
}


/// Whether `c` is a letter or digit class: AL, HL or NU.
pub open spec fn is_word_class(c: Lb) -> bool {
    c == Lb::AL || c == Lb::HL || c == Lb::NU
}

/// LB28, LB23, LB25 (letters and digits hold together) and LB21 (no break
/// before a hyphen, a break-after character or a non-starter): after a
/// letter or digit, no break comes before another letter or digit, nor
/// before BA, HY, HH or NS.
#[verifier::spinoff_prover]
pub proof fn lemma_no_break_inside_words(cs: Seq<char>, k: int)
    requires
        0 < k < cs.len(),
        is_word_class(lb_classes(cs)[k - 1]),
        is_word_class(lb_classes(cs)[k]) || lb_classes(cs)[k] == Lb::BA || lb_classes(cs)[k] == Lb::HY
            || lb_classes(cs)[k] == Lb::HH || lb_classes(cs)[k] == Lb::NS,
    ensures
        char_actions(cs).len() == cs.len() + 1,
        char_actions(cs)[k] == BreakAction::Prohibited,
{
    let cls = lb_classes(cs);
    let eff = eff_classes(cls);
    lemma_action_at(cs, k);
    assert(eff[k] == cls[k]);
    assert(eff[k - 1] == cls[k - 1]);
    assert(!after_target_sp(eff, cls, k - 1, 0));
    assert(!after_target_sp(eff, cls, k - 1, 1));
    assert(!after_target_sp(eff, cls, k - 1, 2));
    assert(!after_qu_pi_sp(eff, cls, code_points(cs), k - 1));
    if cls[k - 1] == Lb::NU {
        assert(in_numeric(eff, k - 1));
    }
}

} // verus!

//! Dictionary word segmentation for the SA (complex context) scripts:
//! Thai, Lao, Khmer and Myanmar, by forward longest match.
//!
//! The word lists (one word per line, as in the ICU break-iterator
//! dictionaries) are supplied by the caller and read with
//! `Dictionary::from_data`; a character that starts no dictionary word is a
//! word of its own.
use vstd::prelude::*;

use crate::segment::word::{lemma_word_starts, word_boundaries, word_starts};
use crate::text::{
    byte_len, byte_offsets, byte_pos, chars_of, find_char_index, is_char_start, is_white_space, lemma_byte_len_subrange,
    lemma_byte_pos_mono, ranges_contain, str_len, WHITE_SPACE,
};

verus! {

/// The script whose dictionary covers a character.
#[derive(Debug, Clone, Copy, PartialEq, Eq, Structural)]
pub enum DictLanguage {
    Thai,
    Lao,
    Khmer,
    Myanmar,
}

/// The dictionary language of code point `cp`, if any.
pub open spec fn spec_language_for(cp: u32) -> Option<DictLanguage> {
    if (0x0E01 <= cp <= 0x0E3A) || (0x0E40 <= cp <= 0x0E4E) || (0x0E50 <= cp <= 0x0E5B) {
        Some(DictLanguage::Thai)
    } else if 0x0E81 <= cp <= 0x0EDF {
        Some(DictLanguage::Lao)
    } else if (0x1000 <= cp <= 0x109F) || (0xAA60 <= cp <= 0xAA7F) {
        Some(DictLanguage::Myanmar)
    } else if (0x1780 <= cp <= 0x17FF) || (0x19E0 <= cp <= 0x19FF) {
        Some(DictLanguage::Khmer)
    } else {
        None
    }
}

/// Which dictionary language a code point belongs to, if any.
pub fn language_for_codepoint(cp: u32) -> (r: Option<DictLanguage>)
    ensures
        r == spec_language_for(cp),
{
    if (0x0E01 <= cp && cp <= 0x0E3A) || (0x0E40 <= cp && cp <= 0x0E4E) || (0x0E50 <= cp && cp <= 0x0E5B) {
        Some(DictLanguage::Thai)
    } else if 0x0E81 <= cp && cp <= 0x0EDF {
        Some(DictLanguage::Lao)
    } else if (0x1000 <= cp && cp <= 0x109F) || (0xAA60 <= cp && cp <= 0xAA7F) {
        Some(DictLanguage::Myanmar)
    } else if (0x1780 <= cp && cp <= 0x17FF) || (0x19E0 <= cp && cp <= 0x19FF) {
        Some(DictLanguage::Khmer)
    } else {
        None
    }
}

/// A word list and the longest word's length in bytes.
pub struct Dictionary {
    words: Vec<Vec<char>>,
    max_word_len: usize,
}

/// One dictionary per dictionary language. The word lists are supplied by
/// the caller (for instance read from the ICU break-iterator word lists).
pub struct Dictionaries {
    pub thai: Dictionary,
    pub lao: Dictionary,
    pub khmer: Dictionary,
    pub myanmar: Dictionary,
}

/// The dictionary of `lang` in `ds`.
pub open spec fn dict_of(ds: Dictionaries, lang: DictLanguage) -> Dictionary {
    match lang {
        DictLanguage::Thai => ds.thai,
        DictLanguage::Lao => ds.lao,
        DictLanguage::Khmer => ds.khmer,
        DictLanguage::Myanmar => ds.myanmar,
    }
}

/// The words of the dictionary of `lang` in `ds`.
pub open spec fn dict_words(ds: Dictionaries, lang: DictLanguage) -> Seq<Seq<char>> {
    dict_of(ds, lang).word_set()
}

/// The byte length of the longest word of the dictionary of `lang` in `ds`.
pub open spec fn dict_max(ds: Dictionaries, lang: DictLanguage) -> nat {
    dict_of(ds, lang).max_len()
}

/// The end of the line of `cs` that starts at `i`: the next newline, or
/// the end of `cs`.
pub open spec fn line_end(cs: Seq<char>, i: int) -> int
    decreases cs.len() - i,
{
    if i < 0 || i >= cs.len() || cs[i] == '\n' {
        i
    } else {
        line_end(cs, i + 1)
    }
}

pub proof fn lemma_line_end(cs: Seq<char>, i: int)
    requires
        0 <= i <= cs.len(),
    ensures
        i <= line_end(cs, i) <= cs.len(),
    decreases cs.len() - i,
{
    if i < cs.len() && cs[i] != '\n' {
        lemma_line_end(cs, i + 1);
    }
}

/// The first position from `i` on, below `e`, that is not white space, or
/// `e`.
pub open spec fn skip_ws(cs: Seq<char>, i: int, e: int) -> int
    decreases e - i,
{
    if i < e && is_white_space(cs[i]) {
        skip_ws(cs, i + 1, e)
    } else {
        i
    }
}

/// The end of `cs[s..e]` without its trailing white space.
pub open spec fn trim_back(cs: Seq<char>, s: int, e: int) -> int
    decreases e - s,
{
    if e > s && is_white_space(cs[e - 1]) {
        trim_back(cs, s, e - 1)
    } else {
        e
    }
}

proof fn lemma_trim(cs: Seq<char>, i: int, e: int)
    requires
        0 <= i <= e <= cs.len(),
    ensures
        i <= skip_ws(cs, i, e) <= e,
        skip_ws(cs, i, e) <= trim_back(cs, skip_ws(cs, i, e), e) <= e,
    decreases e - i,
{
    if i < e && is_white_space(cs[i]) {
        lemma_trim(cs, i + 1, e);
    }
    lemma_trim_back(cs, skip_ws(cs, i, e), e);
}

proof fn lemma_trim_back(cs: Seq<char>, s: int, e: int)
    requires
        s <= e,
    ensures
        s <= trim_back(cs, s, e) <= e,
    decreases e - s,
{
    if e > s && is_white_space(cs[e - 1]) {
        lemma_trim_back(cs, s, e - 1);
    }
}

/// The words of a newline-separated word list from position `i` on: each
/// line without the white space around it, empty lines skipped.
pub open spec fn list_words_from(cs: Seq<char>, i: int) -> Seq<Seq<char>>
    decreases cs.len() - i,
{
    if i < 0 || i > cs.len() {
        Seq::empty()
    } else {
        proof {
            lemma_line_end(cs, i);
        }
        let e = line_end(cs, i);
        let s = skip_ws(cs, i, e);
        let t = trim_back(cs, s, e);
        let rest = if e < cs.len() { list_words_from(cs, e + 1) } else { Seq::empty() };
        if s < t { seq![cs.subrange(s, t)] + rest } else { rest }
    }
}

/// The byte length of the longest of `list_words_from(cs, i)`, or 0.
pub open spec fn list_max_from(cs: Seq<char>, i: int) -> nat
    decreases cs.len() - i,
{
    if i < 0 || i > cs.len() {
        0
    } else {
        proof {
            lemma_line_end(cs, i);
        }
        let e = line_end(cs, i);
        let s = skip_ws(cs, i, e);
        let t = trim_back(cs, s, e);
        let rest = if e < cs.len() { list_max_from(cs, e + 1) } else { 0 };
        if s < t && byte_len(cs.subrange(s, t)) > rest { byte_len(cs.subrange(s, t)) } else { rest }
    }
}

fn is_white_space_exec(c: char) -> (r: bool)
    ensures
        r == is_white_space(c),
{
    ranges_contain(WHITE_SPACE.as_slice(), c as u32)
}

fn copy_chars(cs: &Vec<char>, s: usize, t: usize) -> (r: Vec<char>)
    requires
        s <= t <= cs@.len(),
    ensures
        r@ == cs@.subrange(s as int, t as int),
{
    let mut r: Vec<char> = Vec::new();
    let mut k = s;
    while k < t
        invariant
            s <= k <= t <= cs@.len(),
            r@ == cs@.subrange(s as int, k as int),
        decreases t - k,
    {
        r.push(cs[k]);
        k += 1;
        proof {
            assert(r@ == cs@.subrange(s as int, k as int));
        }
    }
    r
}

/// Whether `a` comes before `b` in code point order, a proper prefix
/// before the longer word.
pub open spec fn word_less(a: Seq<char>, b: Seq<char>) -> bool
    decreases a.len(),
{
    if a.len() == 0 {
        b.len() > 0
    } else if b.len() == 0 {
        false
    } else if a[0] != b[0] {
        (a[0] as u32) < (b[0] as u32)
    } else {
        word_less(a.drop_first(), b.drop_first())
    }
}

/// No word comes before itself.
pub proof fn lemma_word_less_irreflexive(a: Seq<char>)
    ensures
        !word_less(a, a),
    decreases a.len(),
{
    if a.len() > 0 {
        lemma_word_less_irreflexive(a.drop_first());
    }
}

/// The order is transitive.
pub proof fn lemma_word_less_transitive(a: Seq<char>, b: Seq<char>, c: Seq<char>)
    requires
        word_less(a, b),
        word_less(b, c),
    ensures
        word_less(a, c),
    decreases a.len(),
{
    if a.len() > 0 && b.len() > 0 && c.len() > 0 && a[0] == b[0] && b[0] == c[0] {
        lemma_word_less_transitive(a.drop_first(), b.drop_first(), c.drop_first());
    }
}

/// Of two different words one comes before the other.
pub proof fn lemma_word_less_total(a: Seq<char>, b: Seq<char>)
    ensures
        a == b || word_less(a, b) || word_less(b, a),
    decreases a.len(),
{
    if a.len() > 0 && b.len() > 0 && a[0] == b[0] {
        lemma_word_less_total(a.drop_first(), b.drop_first());
        if a.drop_first() == b.drop_first() {
            assert(a =~= b) by {
                assert forall|k: int| 0 <= k < a.len() implies a[k] == b[k] by {
                    if k > 0 {
                        assert(a[k] == a.drop_first()[k - 1]);
                        assert(b[k] == b.drop_first()[k - 1]);
                    }
                }
            }
        }
    } else if a.len() == 0 && b.len() == 0 {
        assert(a =~= b);
    } else if a.len() > 0 && b.len() > 0 {
        lemma_char_code_injective(a[0], b[0]);
    }
}

/// Different characters have different code points.
proof fn lemma_char_code_injective(x: char, y: char)
    requires
        x != y,
    ensures
        (x as u32) != (y as u32),
{
    vstd::utf8::char_u32_cast(x, x as u32);
    vstd::utf8::char_u32_cast(y, y as u32);
}

/// Two words with a common prefix of `m` characters are ordered as what
/// follows the prefix.
proof fn lemma_word_less_skip(a: Seq<char>, b: Seq<char>, m: int)
    requires
        0 <= m <= a.len(),
        m <= b.len(),
        a.subrange(0, m) == b.subrange(0, m),
    ensures
        word_less(a, b) == word_less(a.skip(m), b.skip(m)),
    decreases m,
{
    if m > 0 {
        assert(a[0] == a.subrange(0, m)[0]);
        assert(b[0] == b.subrange(0, m)[0]);
        assert(a.drop_first().subrange(0, m - 1) =~= a.subrange(0, m).drop_first());
        assert(b.drop_first().subrange(0, m - 1) =~= b.subrange(0, m).drop_first());
        lemma_word_less_skip(a.drop_first(), b.drop_first(), m - 1);
        assert(a.drop_first().skip(m - 1) =~= a.skip(m));
        assert(b.drop_first().skip(m - 1) =~= b.skip(m));
    } else {
        assert(a.skip(0) =~= a);
        assert(b.skip(0) =~= b);
    }
}

/// Whether the stored words `ws` are in strictly increasing order.
pub open spec fn strictly_sorted(ws: Seq<Vec<char>>) -> bool {
    forall|i: int, j: int| 0 <= i < j < ws.len() ==> word_less(#[trigger] ws[i]@, #[trigger] ws[j]@)
}

/// Whether `x` is one of the words of `ws`.
pub open spec fn has_word(ws: Seq<Vec<char>>, x: Seq<char>) -> bool {
    exists|j: int| 0 <= j < ws.len() && #[trigger] ws[j]@ == x
}

/// Compare `w` with `cs[lo..hi]`: negative if `w` comes first, zero if
/// they are equal, positive if `w` comes after.
fn compare_word(w: &Vec<char>, cs: &Vec<char>, lo: usize, hi: usize) -> (r: i8)
    requires
        lo <= hi <= cs@.len(),
    ensures
        (r == 0) == (w@ == cs@.subrange(lo as int, hi as int)),
        (r < 0) == word_less(w@, cs@.subrange(lo as int, hi as int)),
        (r > 0) == word_less(cs@.subrange(lo as int, hi as int), w@),
{
    let ghost t = cs@.subrange(lo as int, hi as int);
    let n = hi - lo;
    let mut m: usize = 0;
    while m < w.len() && m < n && w[m] == cs[lo + m]
        invariant
            m <= w@.len(),
            m <= n,
            n == hi - lo,
            lo <= hi <= cs@.len(),
            t == cs@.subrange(lo as int, hi as int),
            w@.subrange(0, m as int) == t.subrange(0, m as int),
        decreases w@.len() - m,
    {
        proof {
            assert(w@.subrange(0, m + 1) =~= w@.subrange(0, m as int).push(w@[m as int]));
            assert(t.subrange(0, m + 1) =~= t.subrange(0, m as int).push(t[m as int]));
        }
        m += 1;
    }
    proof {
        lemma_word_less_skip(w@, t, m as int);
        lemma_word_less_skip(t, w@, m as int);
        lemma_word_less_irreflexive(w@);
        let a = w@.skip(m as int);
        let b = t.skip(m as int);
        if a.len() > 0 && b.len() > 0 {
            assert(a[0] == w@[m as int]);
            assert(b[0] == cs@[lo + m]);
            lemma_char_code_injective(a[0], b[0]);
        }
        if m == w.len() && m == n {
            assert(w@ =~= t) by {
                assert(w@ =~= w@.subrange(0, m as int));
                assert(t =~= t.subrange(0, m as int));
            }
        } else if w@ == t {
            assert(w@[m as int] == t[m as int]);
        }
    }
    if m == w.len() && m == n {
        0
    } else if m == w.len() {
        -1
    } else if m == n {
        1
    } else if (w[m] as u32) < (cs[lo + m] as u32) {
        -1
    } else {
        1
    }
}

/// Where `cs[lo..hi]` stands in the sorted `ws`: the number of words that
/// come before it, and whether it is the word at that place.
fn find_word(ws: &Vec<Vec<char>>, cs: &Vec<char>, lo: usize, hi: usize) -> (r: (usize, bool))
    requires
        lo <= hi <= cs@.len(),
        strictly_sorted(ws@),
    ensures
        r.0 <= ws@.len(),
        forall|j: int| 0 <= j < r.0 ==> word_less(#[trigger] ws@[j]@, cs@.subrange(lo as int, hi as int)),
        forall|j: int| r.0 <= j < ws@.len() ==> word_less(cs@.subrange(lo as int, hi as int), #[trigger] ws@[j]@)
            || ws@[j]@ == cs@.subrange(lo as int, hi as int),
        r.1 == has_word(ws@, cs@.subrange(lo as int, hi as int)),
        r.1 ==> r.0 < ws@.len() && ws@[r.0 as int]@ == cs@.subrange(lo as int, hi as int),
{
    let ghost t = cs@.subrange(lo as int, hi as int);
    let mut a: usize = 0;
    let mut b: usize = ws.len();
    while a < b
        invariant
            a <= b <= ws@.len(),
            lo <= hi <= cs@.len(),
            t == cs@.subrange(lo as int, hi as int),
            strictly_sorted(ws@),
            forall|j: int| 0 <= j < a ==> word_less(#[trigger] ws@[j]@, t),
            forall|j: int| b <= j < ws@.len() ==> !word_less(#[trigger] ws@[j]@, t),
        decreases b - a,
    {
        let mid = a + (b - a) / 2;
        let c = compare_word(&ws[mid], cs, lo, hi);
        if c < 0 {
            proof {
                assert forall|j: int| 0 <= j < mid + 1 implies word_less(#[trigger] ws@[j]@, t) by {
                    if j < mid {
                        lemma_word_less_transitive(ws@[j]@, ws@[mid as int]@, t);
                    }
                }
            }
            a = mid + 1;
        } else {
            proof {
                assert forall|j: int| mid <= j < ws@.len() implies !word_less(#[trigger] ws@[j]@, t) by {
                    if j > mid && word_less(ws@[j]@, t) {
                        lemma_word_less_transitive(ws@[mid as int]@, ws@[j]@, t);
                    }
                }
            }
            b = mid;
        }
    }
    proof {
        assert forall|j: int| a <= j < ws@.len() implies word_less(t, #[trigger] ws@[j]@) || ws@[j]@ == t by {
            lemma_word_less_total(ws@[j]@, t);
        }
    }
    let found = a < ws.len() && compare_word(&ws[a], cs, lo, hi) == 0;
    proof {
        if has_word(ws@, t) {
            let k = choose|k: int| 0 <= k < ws@.len() && #[trigger] ws@[k]@ == t;
            lemma_word_less_irreflexive(t);
            if k > a {
                assert(word_less(ws@[a as int]@, ws@[k]@));
            }
            assert(k == a);
        }
    }
    (a, found)
}

/// Whether the words of `ws` are in strictly increasing order.
pub open spec fn words_ascending(ws: Seq<Seq<char>>) -> bool {
    forall|i: int, j: int| 0 <= i < j < ws.len() ==> word_less(#[trigger] ws[i], #[trigger] ws[j])
}

/// Inserting `w` at `p` into the sorted `ws`, between the words before
/// and after it, keeps `ws` sorted and adds exactly `w`.
proof fn lemma_insert_word(ws: Seq<Vec<char>>, p: int, w: Vec<char>)
    requires
        0 <= p <= ws.len(),
        strictly_sorted(ws),
        forall|j: int| 0 <= j < p ==> word_less(#[trigger] ws[j]@, w@),
        forall|j: int| p <= j < ws.len() ==> word_less(w@, #[trigger] ws[j]@),
    ensures
        strictly_sorted(ws.insert(p, w)),
        forall|x: Seq<char>| #[trigger] has_word(ws.insert(p, w), x) == (has_word(ws, x) || x == w@),
{
    let nw = ws.insert(p, w);
    assert forall|i: int, j: int| 0 <= i < j < nw.len() implies word_less(#[trigger] nw[i]@, #[trigger] nw[j]@) by {
        if j < p {
            assert(nw[i] == ws[i] && nw[j] == ws[j]);
        } else if j == p {
            assert(nw[i] == ws[i]);
        } else if i < p {
            assert(nw[i] == ws[i] && nw[j] == ws[j - 1]);
            lemma_word_less_transitive(ws[i]@, w@, ws[j - 1]@);
        } else if i == p {
            assert(nw[j] == ws[j - 1]);
        } else {
            assert(nw[i] == ws[i - 1] && nw[j] == ws[j - 1]);
        }
    }
    assert forall|x: Seq<char>| #[trigger] has_word(nw, x) == (has_word(ws, x) || x == w@) by {
        if has_word(nw, x) {
            let k = choose|k: int| 0 <= k < nw.len() && #[trigger] nw[k]@ == x;
            if k < p {
                assert(ws[k]@ == x);
            } else if k > p {
                assert(ws[k - 1]@ == x);
            }
        }
        if has_word(ws, x) {
            let k = choose|k: int| 0 <= k < ws.len() && #[trigger] ws[k]@ == x;
            if k < p {
                assert(nw[k]@ == x);
            } else {
                assert(nw[k + 1]@ == x);
            }
        }
        if x == w@ {
            assert(nw[p]@ == x);
        }
    }
}

impl Dictionary {
    /// The words.
    pub closed spec fn word_set(&self) -> Seq<Seq<char>> {
        self.words@.map_values(|w: Vec<char>| w@)
    }

    /// The longest word's length in bytes.
    pub closed spec fn max_len(&self) -> nat {
        self.max_word_len as nat
    }

    /// The words are kept in increasing order, each once.
    #[verifier::type_invariant]
    spec fn words_sorted(&self) -> bool {
        strictly_sorted(self.words@)
    }

    /// The words, as seen through the stored vectors.
    proof fn lemma_word_set(&self)
        ensures
            self.word_set().len() == self.words@.len(),
            forall|j: int| 0 <= j < self.words@.len() ==> #[trigger] self.word_set()[j] == self.words@[j]@,
            forall|x: Seq<char>| #[trigger] self.word_set().contains(x) == has_word(self.words@, x),
    {
        let ws = self.word_set();
        assert forall|x: Seq<char>| #[trigger] ws.contains(x) == has_word(self.words@, x) by {
            if ws.contains(x) {
                let k = choose|k: int| 0 <= k < ws.len() && ws[k] == x;
                assert(self.words@[k]@ == x);
            }
            if has_word(self.words@, x) {
                let k = choose|k: int| 0 <= k < self.words@.len() && #[trigger] self.words@[k]@ == x;
                assert(ws[k] == x);
            }
        }
    }

    /// Build a dictionary from a newline-separated word list: each line
    /// without the white space around it is a word; empty lines are skipped.
    /// The words are kept in increasing order, a word listed twice once.
    pub fn from_data(data: &str) -> (d: Dictionary)
        ensures
            forall|x: Seq<char>| #[trigger] d.word_set().contains(x) == list_words_from(data@, 0).contains(x),
            words_ascending(d.word_set()),
            d.word_set().no_duplicates(),
            d.max_len() == list_max_from(data@, 0),
    {
        let cs = chars_of(data);
        let _len = str_len(data);
        let offs = byte_offsets(&cs);
        let n = cs.len();
        let ghost g = cs@;
        let mut words: Vec<Vec<char>> = Vec::new();
        let ghost mut acc: Seq<Seq<char>> = Seq::empty();
        let mut max_len: usize = 0;
        let mut i: usize = 0;
        loop
            invariant_except_break
                i <= n,
                acc + list_words_from(g, i as int) == list_words_from(g, 0),
                (if max_len >= list_max_from(g, i as int) { max_len as nat } else { list_max_from(g, i as int) })
                    == list_max_from(g, 0),
            invariant
                n == g.len(),
                g == cs@,
                g == data@,
                offs@.len() == n + 1,
                forall|k: int| 0 <= k <= n ==> #[trigger] offs@[k] == byte_pos(g, k),
                byte_len(g) <= usize::MAX,
                strictly_sorted(words@),
                forall|x: Seq<char>| #[trigger] has_word(words@, x) == acc.contains(x),
            ensures
                acc == list_words_from(g, 0),
                max_len == list_max_from(g, 0),
            decreases n - i,
        {
            let mut e = i;
            while e < n && cs[e] != '\n'
                invariant
                    i <= e <= n,
                    n == g.len(),
                    g == cs@,
                    line_end(g, e as int) == line_end(g, i as int),
                decreases n - e,
            {
                e += 1;
            }
            let mut s = i;
            while s < e && is_white_space_exec(cs[s])
                invariant
                    i <= s <= e <= n,
                    n == g.len(),
                    g == cs@,
                    skip_ws(g, s as int, e as int) == skip_ws(g, i as int, e as int),
                decreases e - s,
            {
                s += 1;
            }
            let mut t = e;
            while t > s && is_white_space_exec(cs[t - 1])
                invariant
                    s <= t <= e <= n,
                    n == g.len(),
                    g == cs@,
                    trim_back(g, s as int, t as int) == trim_back(g, s as int, e as int),
                decreases t - s,
            {
                t -= 1;
            }
            let ghost acc0 = acc;
            let ghost rest = if e < n { list_words_from(g, e + 1) } else { Seq::<Seq<char>>::empty() };
            let ghost mrest = if e < n { list_max_from(g, e + 1) } else { 0nat };
            proof {
                assert(line_end(g, e as int) == e);
                assert(list_words_from(g, i as int) == if s < t { seq![g.subrange(s as int, t as int)] + rest } else { rest });
                lemma_byte_pos_mono(g, s as int, t as int);
                lemma_byte_pos_mono(g, t as int, n as int);
                lemma_byte_len_subrange(g, s as int, t as int);
            }
            if s < t {
                let ghost word = g.subrange(s as int, t as int);
                let ghost ws0 = words@;
                let (p, found) = find_word(&words, &cs, s, t);
                if !found {
                    let w = copy_chars(&cs, s, t);
                    proof {
                        assert forall|j: int| p <= j < ws0.len() implies word_less(w@, #[trigger] ws0[j]@) by {
                            assert(ws0[j]@ != word);
                        }
                        lemma_insert_word(ws0, p as int, w);
                    }
                    words.insert(p, w);
                }
                let b = offs[t] - offs[s];
                if b > max_len {
                    max_len = b;
                }
                proof {
                    acc = acc0.push(word);
                    assert forall|x: Seq<char>| #[trigger] has_word(words@, x) == acc.contains(x) by {
                        if x == word {
                            assert(acc[acc0.len() as int] == x);
                        }
                        if acc0.contains(x) {
                            let k = choose|k: int| 0 <= k < acc0.len() && acc0[k] == x;
                            assert(acc[k] == x);
                        }
                        if acc.contains(x) {
                            let k = choose|k: int| 0 <= k < acc.len() && acc[k] == x;
                            if k < acc0.len() {
                                assert(acc0[k] == x);
                            }
                        }
                    }
                    assert(acc0.push(word) + rest == acc0 + (seq![word] + rest));
                }
            }
            if e >= n {
                proof {
                    assert(rest == Seq::<Seq<char>>::empty());
                    assert(acc + rest == acc);
                }
                break;
            }
            i = e + 1;
        }
        let d = Dictionary { words, max_word_len: max_len };
        proof {
            d.lemma_word_set();
            let ws = d.word_set();
            assert forall|x: Seq<char>| #[trigger] ws.contains(x) == list_words_from(data@, 0).contains(x) by {
                assert(has_word(d.words@, x) == acc.contains(x));
            }
            assert forall|i: int, j: int| 0 <= i < j < ws.len() implies word_less(#[trigger] ws[i], #[trigger] ws[j]) by {
                assert(ws[i] == d.words@[i]@ && ws[j] == d.words@[j]@);
            }
            assert forall|i: int, j: int| 0 <= i < ws.len() && 0 <= j < ws.len() && i != j implies ws[i] != ws[j] by {
                lemma_word_less_irreflexive(ws[i]);
                if i < j {
                    assert(word_less(ws[i], ws[j]));
                } else {
                    assert(word_less(ws[j], ws[i]));
                }
            }
        }
        d
    }

    /// Whether `word` is one of the words.
    pub fn contains(&self, word: &str) -> (r: bool)
        ensures
            r == self.word_set().contains(word@),
    {
        let cs = chars_of(word);
        let n = cs.len();
        let r = self.contains_range(&cs, 0, n);
        proof {
            assert(cs@.subrange(0, n as int) == word@);
        }
        r
    }

    /// The number of entries in the word list.
    pub fn word_count(&self) -> (r: usize)
        ensures
            r == self.word_set().len(),
    {
        self.words.len()
    }

    /// The byte length of the longest word.
    pub fn max_word_len(&self) -> (r: usize)
        ensures
            r == self.max_len(),
    {
        self.max_word_len
    }

    /// Whether `cs[lo..hi]` is one of the words, by binary search.
    fn contains_range(&self, cs: &Vec<char>, lo: usize, hi: usize) -> (r: bool)
        requires
            lo <= hi <= cs@.len(),
        ensures
            r == self.word_set().contains(cs@.subrange(lo as int, hi as int)),
    {
        proof {
            use_type_invariant(self);
            self.lemma_word_set();
        }
        let (_, found) = find_word(&self.words, cs, lo, hi);
        found
    }
}

impl Dictionaries {
    /// The dictionary of `lang`.
    pub fn get_dict(&self, lang: DictLanguage) -> (d: &Dictionary)
        ensures
            *d == dict_of(*self, lang),
    {
        match lang {
            DictLanguage::Thai => &self.thai,
            DictLanguage::Lao => &self.lao,
            DictLanguage::Khmer => &self.khmer,
            DictLanguage::Myanmar => &self.myanmar,
        }
    }
}

/// Whether the `k` characters of `cs` from `pos` on form a word of `ws`
/// no longer than `max` bytes.
pub open spec fn word_at(cs: Seq<char>, ws: Seq<Seq<char>>, max: nat, pos: int, k: int) -> bool {
    byte_pos(cs, pos + k) - byte_pos(cs, pos) <= max && ws.contains(cs.subrange(pos, pos + k))
}

/// The length (in characters) of the longest word at `pos` of at most `k`
/// characters, or 0.
pub open spec fn match_len(cs: Seq<char>, ws: Seq<Seq<char>>, max: nat, pos: int, k: int) -> int
    decreases k,
{
    if k <= 0 {
        0
    } else if word_at(cs, ws, max, pos, k) {
        k
    } else {
        match_len(cs, ws, max, pos, k - 1)
    }
}

pub proof fn lemma_match_len(cs: Seq<char>, ws: Seq<Seq<char>>, max: nat, pos: int, k: int)
    ensures
        0 <= match_len(cs, ws, max, pos, k),
        k >= 0 ==> match_len(cs, ws, max, pos, k) <= k,
    decreases k,
{
    if k > 0 {
        lemma_match_len(cs, ws, max, pos, k - 1);
    }
}

/// Word starts after `pos` in `cs[..hi]`: the longest word (or else a
/// single character) is taken at each step.
pub open spec fn seg_from(cs: Seq<char>, hi: int, ws: Seq<Seq<char>>, max: nat, pos: int) -> Seq<int>
    decreases hi - pos,
{
    if pos < 0 || pos >= hi {
        Seq::empty()
    } else {
        proof {
            lemma_match_len(cs, ws, max, pos, hi - pos);
        }
        let m = match_len(cs, ws, max, pos, hi - pos);
        let nx = pos + if m > 0 { m } else { 1 };
        if nx < hi {
            seq![nx].add(seg_from(cs, hi, ws, max, nx))
        } else {
            Seq::empty()
        }
    }
}

pub proof fn lemma_seg_from(cs: Seq<char>, hi: int, ws: Seq<Seq<char>>, max: nat, pos: int)
    requires
        0 <= pos,
    ensures
        forall|a: int| 0 <= a < seg_from(cs, hi, ws, max, pos).len()
            ==> pos < #[trigger] seg_from(cs, hi, ws, max, pos)[a] < hi,
        forall|a: int, b: int| 0 <= a < b < seg_from(cs, hi, ws, max, pos).len()
            ==> seg_from(cs, hi, ws, max, pos)[a] < seg_from(cs, hi, ws, max, pos)[b],
    decreases hi - pos,
{
    if pos < hi {
        lemma_match_len(cs, ws, max, pos, hi - pos);
        let m = match_len(cs, ws, max, pos, hi - pos);
        let nx = pos + if m > 0 { m } else { 1 };
        if nx < hi {
            lemma_seg_from(cs, hi, ws, max, nx);
            let rest = seg_from(cs, hi, ws, max, nx);
            let all = seg_from(cs, hi, ws, max, pos);
            assert(all == seq![nx].add(rest));
            assert forall|a: int| 0 <= a < all.len() implies pos < #[trigger] all[a] < hi by {
                if a > 0 {
                    assert(all[a] == rest[a - 1]);
                }
            }
            assert forall|a: int, b: int| 0 <= a < b < all.len() implies all[a] < all[b] by {
                assert(all[b] == rest[b - 1]);
                if a > 0 {
                    assert(all[a] == rest[a - 1]);
                }
            }
        }
    }
}

/// Word starts (character positions) of `cs[lo..hi]` after its first, with
/// dictionary `d`; positions are absolute.
pub fn segment_range(cs: &Vec<char>, offs: &Vec<usize>, lo: usize, hi: usize, d: &Dictionary) -> (r: Vec<usize>)
    requires
        lo <= hi <= cs@.len(),
        offs@.len() == cs@.len() + 1,
        forall|k: int| 0 <= k <= cs@.len() ==> #[trigger] offs@[k] == byte_pos(cs@, k),
    ensures
        r@.map_values(|p: usize| p as int) == seg_from(cs@, hi as int, d.word_set(), d.max_len(), lo as int),
{
    let mut r: Vec<usize> = Vec::new();
    let mut pos = lo;
    while pos < hi
        invariant
            lo <= pos <= hi <= cs@.len(),
            offs@.len() == cs@.len() + 1,
            forall|k: int| 0 <= k <= cs@.len() ==> #[trigger] offs@[k] == byte_pos(cs@, k),
            seg_from(cs@, hi as int, d.word_set(), d.max_len(), lo as int)
                == r@.map_values(|p: usize| p as int) + seg_from(cs@, hi as int, d.word_set(), d.max_len(), pos as int),
        decreases hi - pos,
    {
        let ghost ws = d.word_set();
        let ghost mx = d.max_len();
        let mut k = hi - pos;
        let mut m: usize = 0;
        while k > 0
            invariant_except_break
                m == 0,
            invariant
                lo <= pos < hi <= cs@.len(),
                k <= hi - pos,
                offs@.len() == cs@.len() + 1,
                forall|j: int| 0 <= j <= cs@.len() ==> #[trigger] offs@[j] == byte_pos(cs@, j),
                match_len(cs@, ws, mx, pos as int, k as int) == match_len(cs@, ws, mx, pos as int, (hi - pos) as int),
                ws == d.word_set(),
                mx == d.max_len(),
            ensures
                m == match_len(cs@, ws, mx, pos as int, (hi - pos) as int),
            decreases k,
        {
            proof {
                lemma_byte_pos_mono(cs@, pos as int, pos + k);
            }
            if offs[pos + k] - offs[pos] <= d.max_word_len && d.contains_range(cs, pos, pos + k) {
                m = k;
                break;
            }
            k -= 1;
        }
        proof {
            lemma_match_len(cs@, ws, mx, pos as int, (hi - pos) as int);
        }
        let step = if m > 0 { m } else { 1 };
        let ghost old_pos = pos;
        pos = pos + step;
        if pos < hi {
            r.push(pos);
        }
        proof {
            let tail = seg_from(cs@, hi as int, ws, mx, old_pos as int);
            if pos < hi {
                assert(tail == seq![pos as int].add(seg_from(cs@, hi as int, ws, mx, pos as int)));
                assert(r@.map_values(|p: usize| p as int) == r@.drop_last().map_values(|p: usize| p as int).push(pos as int));
            } else {
                assert(tail == Seq::<int>::empty());
                assert(seg_from(cs@, hi as int, ws, mx, pos as int) == Seq::<int>::empty());
            }
        }
    }
    proof {
        assert(seg_from(cs@, hi as int, d.word_set(), d.max_len(), pos as int) == Seq::<int>::empty());
    }
    r
}

/// The word starts of `cs` after its first, as character positions, with
/// the dictionary of `lang` in `ds`.
pub open spec fn dict_word_starts(cs: Seq<char>, ds: Dictionaries, lang: DictLanguage) -> Seq<int> {
    seg_from(cs, cs.len() as int, dict_words(ds, lang), dict_max(ds, lang), 0)
}

/// Byte offsets where a new word starts in `text` (after the first word),
/// by forward longest match against the dictionary of `lang`.
pub fn segment_words(text: &str, lang: DictLanguage, dicts: &Dictionaries) -> (r: Vec<usize>)
    ensures
        r@ == dict_word_starts(text@, *dicts, lang).map_values(|p: int| byte_pos(text@, p) as usize),
        forall|a: int| 0 <= a < r@.len() ==> 0 < #[trigger] r@[a] < byte_len(text@),
        forall|a: int, b: int| 0 <= a < b < r@.len() ==> r@[a] < r@[b],
{
    let cs = chars_of(text);
    let _len = str_len(text);
    let offs = byte_offsets(&cs);
    let d = dicts.get_dict(lang);
    let starts = segment_range(&cs, &offs, 0, cs.len(), d);
    let ghost sp = dict_word_starts(cs@, *dicts, lang);
    proof {
        lemma_seg_from(cs@, cs@.len() as int, d.word_set(), d.max_len(), 0);
        assert(starts@.len() == sp.len());
    }
    let mut r: Vec<usize> = Vec::new();
    let mut k: usize = 0;
    while k < starts.len()
        invariant
            k <= starts@.len(),
            starts@.len() == sp.len(),
            forall|a: int| 0 <= a < sp.len() ==> #[trigger] starts@[a] as int == sp[a],
            forall|a: int| 0 <= a < sp.len() ==> 0 < #[trigger] sp[a] < cs@.len(),
            offs@.len() == cs@.len() + 1,
            forall|j: int| 0 <= j <= cs@.len() ==> #[trigger] offs@[j] == byte_pos(cs@, j),
            r@ == sp.take(k as int).map_values(|p: int| byte_pos(cs@, p) as usize),
        decreases starts@.len() - k,
    {
        proof {
            assert(starts@.map_values(|p: usize| p as int)[k as int] == sp[k as int]);
        }
        r.push(offs[starts[k]]);
        k += 1;
        proof {
            assert(sp.take(k as int) == sp.take(k - 1).push(sp[k - 1]));
        }
    }
    proof {
        assert(sp.take(k as int) == sp);
        assert forall|a: int| 0 <= a < r@.len() implies 0 < #[trigger] r@[a] < byte_len(text@) by {
            lemma_byte_pos_mono(cs@, 0, sp[a]);
            lemma_byte_pos_mono(cs@, sp[a], cs@.len() as int);
        }
        assert forall|a: int, b: int| 0 <= a < b < r@.len() implies r@[a] < r@[b] by {
            lemma_byte_pos_mono(cs@, sp[a], sp[b]);
            lemma_byte_pos_mono(cs@, sp[b], cs@.len() as int);
        }
    }
    r
}


/// The end of the run of characters of dictionary language `lang` from `j` on.
pub open spec fn lang_run_end(cs: Seq<char>, j: int, lang: DictLanguage) -> int
    decreases cs.len() - j,
{
    if j < 0 || j >= cs.len() || spec_language_for(cs[j] as u32) != Some(lang) {
        j
    } else {
        lang_run_end(cs, j + 1, lang)
    }
}

pub proof fn lemma_lang_run_end(cs: Seq<char>, j: int, lang: DictLanguage)
    requires
        0 <= j <= cs.len(),
    ensures
        j <= lang_run_end(cs, j, lang) <= cs.len(),
    decreases cs.len() - j,
{
    if j < cs.len() && spec_language_for(cs[j] as u32) == Some(lang) {
        lemma_lang_run_end(cs, j + 1, lang);
    }
}

/// Character positions where a dictionary word starts, from position `i`
/// on: the start of each run of one dictionary language and the word
/// starts inside it.
pub open spec fn dict_word_marks(cs: Seq<char>, ds: Dictionaries, i: int) -> Set<int>
    decreases cs.len() - i,
{
    if i < 0 || i >= cs.len() {
        Set::empty()
    } else {
        match spec_language_for(cs[i] as u32) {
            None => dict_word_marks(cs, ds, i + 1),
            Some(lang) => {
                proof {
                    lemma_lang_run_end(cs, i + 1, lang);
                }
                let e = lang_run_end(cs, i + 1, lang);
                seg_from(cs, e, dict_words(ds, lang), dict_max(ds, lang), i).to_set().insert(i).union(dict_word_marks(cs, ds, e))
            },
        }
    }
}

/// The byte offsets of the word starts of `cs` together with the
/// dictionary word starts of its runs in the SA scripts.
pub open spec fn dictionary_word_starts(cs: Seq<char>, ds: Dictionaries) -> Set<usize> {
    word_starts(cs).to_set().union(dict_word_marks(cs, ds, 0)).map(|p: int| byte_pos(cs, p) as usize)
}

proof fn lemma_dict_word_marks_range(cs: Seq<char>, ds: Dictionaries, i: int)
    requires
        0 <= i,
    ensures
        forall|p: int| #[trigger] dict_word_marks(cs, ds, i).contains(p) ==> i <= p < cs.len(),
    decreases cs.len() - i,
{
    if i < cs.len() {
        match spec_language_for(cs[i] as u32) {
            None => {
                lemma_dict_word_marks_range(cs, ds, i + 1);
                assert(dict_word_marks(cs, ds, i) == dict_word_marks(cs, ds, i + 1));
            },
            Some(lang) => {
                lemma_lang_run_end(cs, i + 1, lang);
                let e = lang_run_end(cs, i + 1, lang);
                lemma_dict_word_marks_range(cs, ds, e);
                lemma_seg_from(cs, e, dict_words(ds, lang), dict_max(ds, lang), i);
                let sf = seg_from(cs, e, dict_words(ds, lang), dict_max(ds, lang), i);
                assert(dict_word_marks(cs, ds, i) == sf.to_set().insert(i).union(dict_word_marks(cs, ds, e)));
                assert forall|p: int| #[trigger] dict_word_marks(cs, ds, i).contains(p) implies i <= p < cs.len() by {
                    if sf.to_set().contains(p) {
                        assert(sf.contains(p));
                        let k = choose|k: int| 0 <= k < sf.len() && sf[k] == p;
                        assert(i < sf[k] < e);
                    } else if p != i {
                        assert(dict_word_marks(cs, ds, e).contains(p));
                    }
                }
            },
        }
    }
}

/// Word boundaries (byte offsets, ascending, each once) with the SA runs
/// of `text` segmented by dictionary: the UAX #29 word starts, the start of
/// each run of one dictionary language, and the dictionary word starts in it.
pub fn word_boundaries_with_dictionary(text: &str, dicts: &Dictionaries) -> (r: Vec<usize>)
    ensures
        r@.to_set() == dictionary_word_starts(text@, *dicts),
        forall|a: int, b: int| 0 <= a < b < r@.len() ==> r@[a] < r@[b],
{
    let cs = chars_of(text);
    let len = str_len(text);
    let n = cs.len();
    let ghost g = cs@;
    let offs = byte_offsets(&cs);
    let wb = word_boundaries(text, None);
    let ghost ws = word_starts(g);
    proof {
        lemma_word_starts(g);
        lemma_dict_word_marks_range(g, *dicts, 0);
    }
    let mut marks: Vec<bool> = Vec::new();
    while marks.len() <= n
        invariant
            marks@.len() <= n + 1,
            forall|q: int| 0 <= q < marks@.len() ==> !#[trigger] marks@[q],
        decreases n + 1 - marks@.len(),
    {
        marks.push(false);
    }
    let mut a: usize = 0;
    while a < wb.len()
        invariant
            n == g.len(),
            g == cs@,
            a <= wb@.len(),
            marks@.len() == n + 1,
            offs@.len() == n + 1,
            forall|k: int| 0 <= k <= n ==> #[trigger] offs@[k] == byte_pos(g, k),
            wb@ == ws.map_values(|i: int| byte_pos(g, i) as usize),
            len == byte_len(g),
            forall|k: int| 0 <= k < ws.len() ==> 0 <= #[trigger] ws[k] <= n,
            forall|q: int| 0 <= q <= n ==> (#[trigger] marks@[q] <==> exists|t: int| 0 <= t < a && ws[t] == q),
        decreases wb@.len() - a,
    {
        let ghost w = ws[a as int];
        proof {
            lemma_byte_pos_mono(g, w, n as int);
            assert(wb@[a as int] == byte_pos(g, w));
            assert(is_char_start(g, wb@[a as int] as int));
        }
        match find_char_index(&cs, &offs, wb[a]) {
            Some(k) => {
                proof {
                    if k < w {
                        lemma_byte_pos_mono(g, k as int, w);
                    } else if k > w {
                        lemma_byte_pos_mono(g, w, k as int);
                    }
                }
                marks.set(k, true);
            },
            None => {},
        }
        a += 1;
    }
    let ghost mut seen: Set<int> = Set::empty();
    let mut i: usize = 0;
    while i < n
        invariant
            n == g.len(),
            g == cs@,
            i <= n,
            marks@.len() == n + 1,
            offs@.len() == n + 1,
            forall|k: int| 0 <= k <= n ==> #[trigger] offs@[k] == byte_pos(g, k),
            dict_word_marks(g, *dicts, 0) == seen.union(dict_word_marks(g, *dicts, i as int)),
            forall|q: int| 0 <= q <= n ==> (#[trigger] marks@[q] <==> (ws.contains(q) || seen.contains(q))),
            forall|q: int| seen.contains(q) ==> 0 <= q <= n,
        decreases n - i,
    {
        match language_for_codepoint(cs[i] as u32) {
            None => {
                i += 1;
            },
            Some(lang) => {
                let mut j = i + 1;
                while j < n && language_for_codepoint(cs[j] as u32) == Some(lang)
                    invariant
                        i < j <= n,
                        n == g.len(),
                        g == cs@,
                        lang_run_end(g, j as int, lang) == lang_run_end(g, i + 1, lang),
                    decreases n - j,
                {
                    j += 1;
                }
                let d = dicts.get_dict(lang);
                let starts = segment_range(&cs, &offs, i, j, d);
                let ghost sf = seg_from(g, j as int, dict_words(*dicts, lang), dict_max(*dicts, lang), i as int);
                proof {
                    lemma_seg_from(g, j as int, dict_words(*dicts, lang), dict_max(*dicts, lang), i as int);
                    assert(starts@.map_values(|q: usize| q as int) == sf);
                }
                let ghost before = seen;
                let mut t: usize = 0;
                while t < starts.len()
                    invariant
                        t <= starts@.len(),
                        marks@.len() == n + 1,
                        starts@.map_values(|q: usize| q as int) == sf,
                        forall|x: int| 0 <= x < sf.len() ==> i < #[trigger] sf[x] < j,
                        j <= n,
                        forall|q: int| 0 <= q <= n ==> (#[trigger] marks@[q] <==> (ws.contains(q) || before.contains(q)
                            || exists|x: int| 0 <= x < t && sf[x] == q)),
                    decreases starts@.len() - t,
                {
                    proof {
                        assert(starts@[t as int] as int == sf[t as int]);
                    }
                    marks.set(starts[t], true);
                    t += 1;
                }
                marks.set(i, true);
                proof {
                    let added = sf.to_set().insert(i as int);
                    seen = before.union(added);
                    assert forall|q: int| 0 <= q <= n implies (#[trigger] marks@[q] <==> (ws.contains(q) || seen.contains(q))) by {
                        if sf.to_set().contains(q) {
                            assert(sf.contains(q));
                        }
                        if exists|x: int| 0 <= x < sf.len() && sf[x] == q {
                            let x = choose|x: int| 0 <= x < sf.len() && sf[x] == q;
                            assert(sf.contains(q));
                        }
                    }
                    assert forall|q: int| seen.contains(q) implies 0 <= q <= n by {
                        if sf.to_set().contains(q) {
                            assert(sf.contains(q));
                            let x = choose|x: int| 0 <= x < sf.len() && sf[x] == q;
                        }
                    }
                    lemma_lang_run_end(g, i + 1, lang);
                    assert(dict_word_marks(g, *dicts, i as int) == added.union(dict_word_marks(g, *dicts, j as int)));
                    assert(dict_word_marks(g, *dicts, 0) == seen.union(dict_word_marks(g, *dicts, j as int)));
                }
                i = j;
            },
        }
    }
    let mut r: Vec<usize> = Vec::new();
    let ghost mut qs: Seq<int> = Seq::empty();
    let mut p: usize = 0;
    while p < marks.len()
        invariant
            n == g.len(),
            p <= n + 1,
            marks@.len() == n + 1,
            offs@.len() == n + 1,
            len == byte_len(g),
            forall|k: int| 0 <= k <= n ==> #[trigger] offs@[k] == byte_pos(g, k),
            r@.len() == qs.len(),
            forall|x: int| 0 <= x < qs.len() ==> #[trigger] r@[x] == byte_pos(g, qs[x]),
            forall|x: int| 0 <= x < qs.len() ==> 0 <= #[trigger] qs[x] < p,
            forall|x: int, y: int| 0 <= x < y < qs.len() ==> qs[x] < qs[y],
            forall|q: int| 0 <= q < p ==> (#[trigger] marks@[q] <==> qs.contains(q)),
        decreases marks@.len() - p,
    {
        let ghost old_qs = qs;
        if marks[p] {
            proof {
                lemma_byte_pos_mono(g, p as int, n as int);
            }
            r.push(offs[p]);
            proof {
                qs = qs.push(p as int);
                assert forall|x: int, y: int| 0 <= x < y < qs.len() implies qs[x] < qs[y] by {
                    if y == qs.len() - 1 {
                        assert(qs[x] == old_qs[x]);
                    }
                }
            }
        }
        proof {
            assert forall|q: int| 0 <= q < p + 1 implies (#[trigger] marks@[q] <==> qs.contains(q)) by {
                if q < p {
                    if old_qs.contains(q) {
                        let x = choose|x: int| 0 <= x < old_qs.len() && old_qs[x] == q;
                        assert(qs[x] == q);
                    }
                    if qs.contains(q) {
                        let x = choose|x: int| 0 <= x < qs.len() && qs[x] == q;
                        if x < old_qs.len() {
                            assert(old_qs[x] == q);
                        }
                    }
                } else {
                    if qs.contains(q) {
                        let x = choose|x: int| 0 <= x < qs.len() && qs[x] == q;
                        if x < old_qs.len() {
                            assert(old_qs[x] < p);
                        }
                    }
                    if marks@[q] {
                        assert(qs[qs.len() - 1] == q);
                    }
                }
            }
        }
        p += 1;
    }
    proof {
        let target = dictionary_word_starts(g, *dicts);
        let u = ws.to_set().union(dict_word_marks(g, *dicts, 0));
        assert forall|x: int, y: int| 0 <= x < y < r@.len() implies r@[x] < r@[y] by {
            lemma_byte_pos_mono(g, qs[x], qs[y]);
            lemma_byte_pos_mono(g, qs[y], n as int);
        }
        assert forall|b: usize| r@.to_set().contains(b) <==> target.contains(b) by {
            if r@.to_set().contains(b) {
                assert(r@.contains(b));
                let x = choose|x: int| 0 <= x < r@.len() && r@[x] == b;
                let q = qs[x];
                assert(qs.contains(q));
                assert(marks@[q]);
                assert(u.contains(q)) by {
                    if ws.contains(q) {
                        assert(ws.to_set().contains(q));
                    }
                }
                lemma_byte_pos_mono(g, q, n as int);
                assert(byte_pos(g, q) as usize == b);
            }
            if target.contains(b) {
                let q = choose|q: int| u.contains(q) && byte_pos(g, q) as usize == b;
                if ws.to_set().contains(q) {
                    assert(ws.contains(q));
                    let k = choose|k: int| 0 <= k < ws.len() && ws[k] == q;
                }
                assert(0 <= q <= n);
                assert(marks@[q]);
                assert(qs.contains(q));
                let x = choose|x: int| 0 <= x < qs.len() && qs[x] == q;
                lemma_byte_pos_mono(g, q, n as int);
                assert(r@[x] == b);
                assert(r@.contains(b));
            }
        }
        assert(r@.to_set() == target);
    }
    r
}

} // verus!

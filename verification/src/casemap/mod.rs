//! Unicode case mapping and folding: full mappings (with the expansions of
//! SpecialCasing.txt), the Greek final sigma rule, Turkic (tr, az) rules,
//! titlecasing by whitespace-separated word, and case folding.
use vstd::prelude::*;

use crate::data::casemap::{
    full_fold, full_fold_turkic, full_lowercase, full_titlecase, full_uppercase, simple_fold, simple_lowercase,
    simple_uppercase, ucd_full_fold, ucd_full_fold_turkic, ucd_full_lowercase, ucd_full_titlecase,
    ucd_full_uppercase, ucd_simple_fold, ucd_simple_lowercase, ucd_simple_uppercase,
};
use crate::data::normalization::{ccc, ucd_ccc};
use crate::text::{chars_of, in_ranges, is_white_space, ranges_contain, string_push, WHITE_SPACE};

verus! {

/// Titlecase letters (General_Category Lt).
pub const TITLECASE_LETTERS: [(u32, u32); 10] = [
    (0x01C5, 0x01C5), (0x01C8, 0x01C8), (0x01CB, 0x01CB), (0x01F2, 0x01F2), (0x1F88, 0x1F8F),
    (0x1F98, 0x1F9F), (0x1FA8, 0x1FAF), (0x1FBC, 0x1FBC), (0x1FCC, 0x1FCC), (0x1FFC, 0x1FFC),
];

/// Case_Ignorable characters besides the combining marks.
pub const CASE_IGNORABLE: [(u32, u32); 11] = [
    (0x00AD, 0x00AD), (0x0027, 0x0027), (0x002E, 0x002E), (0x003A, 0x003A), (0x00B7, 0x00B7),
    (0x0387, 0x0387), (0x05F4, 0x05F4), (0x2019, 0x2019), (0x2027, 0x2027), (0x200C, 0x200D),
    (0xFE00, 0xFE0F),
];

/// Cased: has a simple case mapping, or is a titlecase letter.
pub open spec fn is_cased(c: char) -> bool {
    ucd_simple_uppercase(c) != c || ucd_simple_lowercase(c) != c || in_ranges(TITLECASE_LETTERS@, c as u32)
}

/// Case_Ignorable: a combining mark or one of `CASE_IGNORABLE`.
pub open spec fn is_case_ignorable(c: char) -> bool {
    ucd_ccc(c) != 0 || in_ranges(CASE_IGNORABLE@, c as u32)
}

/// Whether a cased character comes before position `j`, past case-ignorable ones.
pub open spec fn cased_before(cs: Seq<char>, j: int) -> bool
    decreases j,
{
    if j <= 0 || j > cs.len() {
        false
    } else if is_cased(cs[j - 1]) {
        true
    } else if !is_case_ignorable(cs[j - 1]) {
        false
    } else {
        cased_before(cs, j - 1)
    }
}

/// Whether a cased character comes at or after position `j`, past
/// case-ignorable ones.
pub open spec fn cased_after(cs: Seq<char>, j: int) -> bool
    decreases cs.len() - j,
{
    if j < 0 || j >= cs.len() {
        false
    } else if is_cased(cs[j]) {
        true
    } else if !is_case_ignorable(cs[j]) {
        false
    } else {
        cased_after(cs, j + 1)
    }
}

/// Whether `locale` is Turkish or Azerbaijani.
pub open spec fn is_turkic(locale: Seq<char>) -> bool {
    locale == seq!['t', 'r'] || locale == seq!['a', 'z']
}

/// Whether `locale` is Lithuanian.
pub open spec fn is_lithuanian(locale: Seq<char>) -> bool {
    locale == seq!['l', 't']
}

/// More_Above (SpecialCasing): from position `j` on, a character of
/// combining class 230 (Above) comes before any character of class 0.
pub open spec fn more_above(cs: Seq<char>, j: int) -> bool
    decreases cs.len() - j,
{
    if j < 0 || j >= cs.len() {
        false
    } else if ucd_ccc(cs[j]) == 230 {
        true
    } else if ucd_ccc(cs[j]) == 0 {
        false
    } else {
        more_above(cs, j + 1)
    }
}

/// The lowercase of character `i` of `cs`, with the Turkic or the
/// Lithuanian rules when asked. Lithuanian keeps an explicit dot above on
/// i, j and į before another accent above, and on the accented capitals
/// Ì, Í and Ĩ.
pub open spec fn lower_chunk(cs: Seq<char>, i: int, turkic: bool, lithuanian: bool) -> Seq<char> {
    let c = cs[i];
    if turkic && c == 'I' {
        if i + 1 < cs.len() && cs[i + 1] == '\u{0307}' { seq!['i'] } else { seq!['\u{0131}'] }
    } else if turkic && c == '\u{0307}' && i > 0 && cs[i - 1] == 'I' {
        Seq::empty()
    } else if turkic && c == '\u{0130}' {
        seq!['i']
    } else if lithuanian && c == 'I' && more_above(cs, i + 1) {
        seq!['i', '\u{0307}']
    } else if lithuanian && c == 'J' && more_above(cs, i + 1) {
        seq!['j', '\u{0307}']
    } else if lithuanian && c == '\u{012E}' && more_above(cs, i + 1) {
        seq!['\u{012F}', '\u{0307}']
    } else if lithuanian && c == '\u{00CC}' {
        seq!['i', '\u{0307}', '\u{0300}']
    } else if lithuanian && c == '\u{00CD}' {
        seq!['i', '\u{0307}', '\u{0301}']
    } else if lithuanian && c == '\u{0128}' {
        seq!['i', '\u{0307}', '\u{0303}']
    } else if c == '\u{03A3}' {
        if cased_before(cs, i) && !cased_after(cs, i + 1) { seq!['\u{03C2}'] } else { seq!['\u{03C3}'] }
    } else {
        ucd_full_lowercase(c)
    }
}

/// The lowercase of the first `k` characters of `cs`.
pub open spec fn lower_prefix(cs: Seq<char>, turkic: bool, lithuanian: bool, k: int) -> Seq<char>
    decreases k,
{
    if k <= 0 {
        Seq::empty()
    } else {
        lower_prefix(cs, turkic, lithuanian, k - 1) + lower_chunk(cs, k - 1, turkic, lithuanian)
    }
}

/// The uppercase of `c`.
pub open spec fn upper_chunk(c: char, turkic: bool) -> Seq<char> {
    if turkic && c == 'i' { seq!['\u{0130}'] } else { ucd_full_uppercase(c) }
}

/// The uppercase of the first `k` characters of `cs`.
pub open spec fn upper_prefix(cs: Seq<char>, turkic: bool, k: int) -> Seq<char>
    decreases k,
{
    if k <= 0 { Seq::empty() } else { upper_prefix(cs, turkic, k - 1) + upper_chunk(cs[k - 1], turkic) }
}


/// One titlecasing step: the output for `c` and whether the next cased
/// character starts a word.
pub open spec fn title_step(c: char, need: bool) -> (Seq<char>, bool) {
    if is_white_space(c) {
        (seq![c], true)
    } else if need && is_cased(c) {
        (ucd_full_titlecase(c), false)
    } else if !need {
        (seq![ucd_simple_lowercase(c)], false)
    } else {
        (seq![c], need)
    }
}

/// The titlecase of the first `k` characters of `cs`, and whether the next
/// cased character starts a word.
pub open spec fn title_prefix(cs: Seq<char>, k: int) -> (Seq<char>, bool)
    decreases k,
{
    if k <= 0 {
        (Seq::empty(), true)
    } else {
        let (out, need) = title_prefix(cs, k - 1);
        let (chunk, need2) = title_step(cs[k - 1], need);
        (out + chunk, need2)
    }
}

/// The full case folding of `c` (with the Turkic mappings when asked).
pub open spec fn fold_chunk(c: char, turkic: bool) -> Seq<char> {
    if turkic { ucd_full_fold_turkic(c) } else { ucd_full_fold(c) }
}

/// The case folding of the first `k` characters of `cs`.
pub open spec fn fold_prefix(cs: Seq<char>, turkic: bool, k: int) -> Seq<char>
    decreases k,
{
    if k <= 0 { Seq::empty() } else { fold_prefix(cs, turkic, k - 1) + fold_chunk(cs[k - 1], turkic) }
}

fn push_all(r: &mut String, v: &Vec<char>)
    ensures
        final(r)@ == old(r)@ + v@,
{
    let mut k: usize = 0;
    while k < v.len()
        invariant
            k <= v@.len(),
            r@ == old(r)@ + v@.take(k as int),
        decreases v@.len() - k,
    {
        string_push(r, v[k]);
        k += 1;
        proof {
            assert(v@.take(k as int) == v@.take(k - 1).push(v@[k - 1]));
        }
    }
    proof {
        assert(v@.take(v@.len() as int) == v@);
    }
}

fn one(c: char) -> (v: Vec<char>)
    ensures
        v@ == seq![c],
{
    let mut v: Vec<char> = Vec::new();
    v.push(c);
    v
}

fn is_cased_exec(c: char) -> (r: bool)
    ensures
        r == is_cased(c),
{
    simple_uppercase(c) != c || simple_lowercase(c) != c || ranges_contain(TITLECASE_LETTERS.as_slice(), c as u32)
}

fn is_case_ignorable_exec(c: char) -> (r: bool)
    ensures
        r == is_case_ignorable(c),
{
    ccc(c) != 0 || ranges_contain(CASE_IGNORABLE.as_slice(), c as u32)
}

fn has_cased_before(cs: &Vec<char>, i: usize) -> (r: bool)
    requires
        i <= cs@.len(),
    ensures
        r == cased_before(cs@, i as int),
{
    let mut j = i;
    while j > 0
        invariant
            j <= i <= cs@.len(),
            cased_before(cs@, j as int) == cased_before(cs@, i as int),
        decreases j,
    {
        if is_cased_exec(cs[j - 1]) {
            return true;
        }
        if !is_case_ignorable_exec(cs[j - 1]) {
            return false;
        }
        j -= 1;
    }
    false
}

fn has_cased_after(cs: &Vec<char>, i: usize) -> (r: bool)
    requires
        i <= cs@.len(),
    ensures
        r == cased_after(cs@, i as int),
{
    let mut j = i;
    while j < cs.len()
        invariant
            i <= j <= cs@.len(),
            cased_after(cs@, j as int) == cased_after(cs@, i as int),
        decreases cs@.len() - j,
    {
        if is_cased_exec(cs[j]) {
            return true;
        }
        if !is_case_ignorable_exec(cs[j]) {
            return false;
        }
        j += 1;
    }
    false
}

fn turkic_locale(locale: &str) -> (r: bool)
    ensures
        r == is_turkic(locale@),
{
    let l = chars_of(locale);
    if l.len() != 2 {
        proof {
            assert(l@.len() != seq!['t', 'r'].len());
        }
        return false;
    }
    let r = (l[0] == 't' && l[1] == 'r') || (l[0] == 'a' && l[1] == 'z');
    proof {
        if r {
            if l[0] == 't' {
                assert(l@ == seq!['t', 'r']);
            } else {
                assert(l@ == seq!['a', 'z']);
            }
        } else {
            assert(l@ != seq!['t', 'r'] && l@ != seq!['a', 'z']) by {
                if l@ == seq!['t', 'r'] {
                    assert(l@[0] == 't' && l@[1] == 'r');
                }
                if l@ == seq!['a', 'z'] {
                    assert(l@[0] == 'a' && l@[1] == 'z');
                }
            }
        }
    }
    r
}

fn has_more_above(cs: &Vec<char>, j: usize) -> (r: bool)
    ensures
        r == more_above(cs@, j as int),
{
    let mut k = j;
    while k < cs.len()
        invariant
            j <= k,
            more_above(cs@, k as int) == more_above(cs@, j as int),
        decreases cs@.len() - k,
    {
        let c = ccc(cs[k]);
        if c == 230 {
            return true;
        }
        if c == 0 {
            return false;
        }
        k += 1;
    }
    false
}

fn lithuanian_locale(locale: &str) -> (r: bool)
    ensures
        r == is_lithuanian(locale@),
{
    let l = chars_of(locale);
    if l.len() != 2 {
        proof {
            assert(l@.len() != seq!['l', 't'].len());
        }
        return false;
    }
    let r = l[0] == 'l' && l[1] == 't';
    proof {
        if r {
            assert(l@ == seq!['l', 't']);
        } else if l@ == seq!['l', 't'] {
            assert(l@[0] == 'l' && l@[1] == 't');
        }
    }
    r
}

fn lowercase_impl(s: &str, turkic: bool, lithuanian: bool) -> (r: String)
    ensures
        r@ == lower_prefix(s@, turkic, lithuanian, s@.len() as int),
{
    let cs = chars_of(s);
    let n = cs.len();
    let mut r = String::new();
    let mut i: usize = 0;
    while i < n
        invariant
            n == cs@.len(),
            cs@ == s@,
            i <= n,
            r@ == lower_prefix(s@, turkic, lithuanian, i as int),
        decreases n - i,
    {
        let c = cs[i];
        let chunk: Vec<char> = if turkic && c == 'I' {
            if i + 1 < n && cs[i + 1] == '\u{0307}' { one('i') } else { one('\u{0131}') }
        } else if turkic && c == '\u{0307}' && i > 0 && cs[i - 1] == 'I' {
            Vec::new()
        } else if turkic && c == '\u{0130}' {
            one('i')
        } else if lithuanian && (c == 'I' || c == 'J' || c == '\u{012E}') && has_more_above(&cs, i + 1) {
            let base = if c == 'I' { 'i' } else if c == 'J' { 'j' } else { '\u{012F}' };
            let mut v = one(base);
            v.push('\u{0307}');
            v
        } else if lithuanian && (c == '\u{00CC}' || c == '\u{00CD}' || c == '\u{0128}') {
            let accent = if c == '\u{00CC}' { '\u{0300}' } else if c == '\u{00CD}' { '\u{0301}' } else { '\u{0303}' };
            let mut v = one('i');
            v.push('\u{0307}');
            v.push(accent);
            v
        } else if c == '\u{03A3}' {
            if has_cased_before(&cs, i) && !has_cased_after(&cs, i + 1) { one('\u{03C2}') } else { one('\u{03C3}') }
        } else {
            full_lowercase(c)
        };
        proof {
            assert(chunk@ == lower_chunk(cs@, i as int, turkic, lithuanian));
        }
        push_all(&mut r, &chunk);
        i += 1;
    }
    r
}

/// Lowercase `s` with the full mappings; a capital sigma that ends a word
/// becomes final sigma.
pub fn to_lowercase(s: &str) -> (r: String)
    ensures
        r@ == lower_prefix(s@, false, false, s@.len() as int),
{
    lowercase_impl(s, false, false)
}

/// Lowercase `s` with the rules of `locale`: for "tr" and "az", I becomes
/// dotless ı (or i before a combining dot above, which is dropped) and İ
/// becomes i; for "lt", i, j and į keep an explicit dot above before
/// another accent above, and Ì, Í, Ĩ become i with a dot above and the
/// accent. Other locales use the default rules.
pub fn to_lowercase_locale(s: &str, locale: &str) -> (r: String)
    ensures
        r@ == lower_prefix(s@, is_turkic(locale@), is_lithuanian(locale@), s@.len() as int),
{
    let t = turkic_locale(locale);
    let l = lithuanian_locale(locale);
    lowercase_impl(s, t, l)
}

fn uppercase_impl(s: &str, turkic: bool) -> (r: String)
    ensures
        r@ == upper_prefix(s@, turkic, s@.len() as int),
{
    let cs = chars_of(s);
    let n = cs.len();
    let mut r = String::new();
    let mut i: usize = 0;
    while i < n
        invariant
            n == cs@.len(),
            cs@ == s@,
            i <= n,
            r@ == upper_prefix(s@, turkic, i as int),
        decreases n - i,
    {
        let c = cs[i];
        let chunk: Vec<char> = if turkic && c == 'i' { one('\u{0130}') } else { full_uppercase(c) };
        push_all(&mut r, &chunk);
        i += 1;
    }
    r
}

/// Uppercase `s` with the full mappings (ß becomes SS, ligatures expand).
pub fn to_uppercase(s: &str) -> (r: String)
    ensures
        r@ == upper_prefix(s@, false, s@.len() as int),
{
    uppercase_impl(s, false)
}

/// Uppercase `s` with the rules of `locale`: for "tr" and "az", i becomes İ.
pub fn to_uppercase_locale(s: &str, locale: &str) -> (r: String)
    ensures
        r@ == upper_prefix(s@, is_turkic(locale@), s@.len() as int),
{
    let t = turkic_locale(locale);
    uppercase_impl(s, t)
}

/// Titlecase `s`: in each whitespace-separated word, the first cased
/// character takes its titlecase mapping and the characters after it their
/// lowercase mapping.
pub fn to_titlecase(s: &str) -> (r: String)
    ensures
        r@ == title_prefix(s@, s@.len() as int).0,
{
    let cs = chars_of(s);
    let n = cs.len();
    let mut r = String::new();
    let mut need = true;
    let mut i: usize = 0;
    while i < n
        invariant
            n == cs@.len(),
            cs@ == s@,
            i <= n,
            (r@, need) == title_prefix(s@, i as int),
        decreases n - i,
    {
        let c = cs[i];
        let (chunk, need2): (Vec<char>, bool) = if ranges_contain(WHITE_SPACE.as_slice(), c as u32) {
            (one(c), true)
        } else if need && is_cased_exec(c) {
            (full_titlecase(c), false)
        } else if !need {
            (one(simple_lowercase(c)), false)
        } else {
            (one(c), need)
        };
        push_all(&mut r, &chunk);
        need = need2;
        i += 1;
    }
    r
}

fn case_fold_impl(s: &str, turkic: bool) -> (r: String)
    ensures
        r@ == fold_prefix(s@, turkic, s@.len() as int),
{
    let cs = chars_of(s);
    let n = cs.len();
    let mut r = String::new();
    let mut i: usize = 0;
    while i < n
        invariant
            n == cs@.len(),
            cs@ == s@,
            i <= n,
            r@ == fold_prefix(s@, turkic, i as int),
        decreases n - i,
    {
        let c = cs[i];
        let chunk: Vec<char> = if turkic { full_fold_turkic(c) } else { full_fold(c) };
        push_all(&mut r, &chunk);
        i += 1;
    }
    r
}

/// Full case folding for case-insensitive matching (ß becomes ss).
pub fn case_fold(s: &str) -> (r: String)
    ensures
        r@ == fold_prefix(s@, false, s@.len() as int),
{
    case_fold_impl(s, false)
}

/// Simple case folding: each character folds to one character, so the
/// number of characters is kept.
pub fn case_fold_simple(s: &str) -> (r: String)
    ensures
        r@ == s@.map_values(|c: char| ucd_simple_fold(c)),
        r@.len() == s@.len(),
{
    let cs = chars_of(s);
    let n = cs.len();
    let mut r = String::new();
    let mut i: usize = 0;
    while i < n
        invariant
            n == cs@.len(),
            cs@ == s@,
            i <= n,
            r@ == s@.take(i as int).map_values(|c: char| ucd_simple_fold(c)),
        decreases n - i,
    {
        string_push(&mut r, simple_fold(cs[i]));
        i += 1;
        proof {
            assert(s@.take(i as int) == s@.take(i - 1).push(s@[i - 1]));
        }
    }
    proof {
        assert(s@.take(n as int) == s@);
    }
    r
}

/// Case folding with the rules of `locale`: for "tr" and "az", I folds to
/// dotless ı and İ to i.
pub fn case_fold_locale(s: &str, locale: &str) -> (r: String)
    ensures
        r@ == fold_prefix(s@, is_turkic(locale@), s@.len() as int),
{
    let t = turkic_locale(locale);
    case_fold_impl(s, t)
}

/// Whether `ch` has an uppercase mapping (is a lowercase letter).
pub fn is_lowercase(ch: char) -> (r: bool)
    ensures
        r == (ucd_simple_uppercase(ch) != ch),
{
    simple_uppercase(ch) != ch
}

/// Whether `ch` has a lowercase mapping (is an uppercase letter).
pub fn is_uppercase(ch: char) -> (r: bool)
    ensures
        r == (ucd_simple_lowercase(ch) != ch),
{
    simple_lowercase(ch) != ch
}

} // verus!

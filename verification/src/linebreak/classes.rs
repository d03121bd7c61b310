//! LB1, LB9 and LB10 class resolution, the code point tables the rules
//! consult, and the backward and forward context scans.
use vstd::prelude::*;

use crate::data::line_break::{lb, spec_lb, Lb};
use crate::text::{in_ranges, ranges_contain};

verus! {

/// General_Category Mn or Mc among the SA (complex context) scripts.
pub const SA_MARKS: [(u32, u32); 48] = [
    (0x0E31, 0x0E31), (0x0E34, 0x0E3A), (0x0E47, 0x0E4E), (0x0E33, 0x0E33), (0x0EB1, 0x0EB1),
    (0x0EB4, 0x0EBC), (0x0EC8, 0x0ECD), (0x0EB3, 0x0EB3), (0x102D, 0x1030), (0x1032, 0x1037),
    (0x1039, 0x103A), (0x103D, 0x103E), (0x1058, 0x1059), (0x105E, 0x1060), (0x1071, 0x1074),
    (0x1082, 0x1082), (0x1085, 0x1086), (0x108D, 0x108D), (0x109D, 0x109D), (0xA9E5, 0xA9E5),
    (0x102B, 0x102C), (0x1031, 0x1031), (0x1038, 0x1038), (0x103B, 0x103C), (0x1056, 0x1057),
    (0x1062, 0x1062), (0x1067, 0x1068), (0x1083, 0x1084), (0x1087, 0x108C), (0x108F, 0x108F),
    (0x109A, 0x109C), (0x17B4, 0x17B5), (0x17B7, 0x17BD), (0x17C6, 0x17C6), (0x17C9, 0x17D3),
    (0x17DD, 0x17DD), (0x17B6, 0x17B6), (0x17BE, 0x17C5), (0x17C7, 0x17C8), (0x1A56, 0x1A56),
    (0x1A58, 0x1A5E), (0x1A62, 0x1A62), (0x1A65, 0x1A6C), (0x1A73, 0x1A7C), (0x1A7F, 0x1A7F),
    (0x1A55, 0x1A55), (0x1A57, 0x1A57), (0x1A6D, 0x1A72),
];

/// Quotation marks of General_Category Pi (initial punctuation).
pub const QU_PI: [(u32, u32); 12] = [
    (0x00AB, 0x00AB), (0x2018, 0x2018), (0x201B, 0x201B), (0x201C, 0x201C), (0x201F, 0x201F),
    (0x2039, 0x2039), (0x2E02, 0x2E02), (0x2E04, 0x2E04), (0x2E09, 0x2E09), (0x2E0C, 0x2E0C),
    (0x2E1C, 0x2E1C), (0x2E20, 0x2E20),
];

/// Quotation marks of General_Category Pf (final punctuation).
pub const QU_PF: [(u32, u32); 10] = [
    (0x00BB, 0x00BB), (0x2019, 0x2019), (0x201D, 0x201D), (0x203A, 0x203A), (0x2E03, 0x2E03),
    (0x2E05, 0x2E05), (0x2E0A, 0x2E0A), (0x2E0D, 0x2E0D), (0x2E1D, 0x2E1D), (0x2E21, 0x2E21),
];

/// Unassigned (General_Category Cn) code points in the pictographic blocks.
pub const UNASSIGNED_PICTOGRAPHIC: [(u32, u32); 33] = [
    (0x1F02C, 0x1F02F), (0x1F094, 0x1F09F), (0x1F0AF, 0x1F0B0), (0x1F0C0, 0x1F0C0), (0x1F0D0, 0x1F0D0),
    (0x1F0F6, 0x1F0FF), (0x1F1AE, 0x1F1E5), (0x1F203, 0x1F20F), (0x1F23C, 0x1F23F), (0x1F249, 0x1F24F),
    (0x1F252, 0x1F25F), (0x1F266, 0x1F2FF), (0x1F6D9, 0x1F6DB), (0x1F6ED, 0x1F6EF), (0x1F6FD, 0x1F6FF),
    (0x1F7DA, 0x1F7DF), (0x1F7EC, 0x1F7EF), (0x1F7F1, 0x1F7FF), (0x1F80C, 0x1F80F), (0x1F848, 0x1F84F),
    (0x1F85A, 0x1F85F), (0x1F888, 0x1F88F), (0x1F8AE, 0x1F8FF), (0x1FA58, 0x1FA5F), (0x1FA6E, 0x1FA6F),
    (0x1FA7D, 0x1FA7F), (0x1FA8B, 0x1FA8D), (0x1FAC7, 0x1FAC7), (0x1FAC9, 0x1FACC), (0x1FADD, 0x1FADE),
    (0x1FAEB, 0x1FAEE), (0x1FAF9, 0x1FAFF), (0x1FC00, 0x1FFFD),
];

/// Extended_Pictographic ranges consulted by LB30b.
pub const PICTOGRAPHIC: [(u32, u32); 105] = [
    (0x00A9, 0x00A9), (0x00AE, 0x00AE), (0x203C, 0x203C), (0x2049, 0x2049), (0x2122, 0x2122),
    (0x2139, 0x2139), (0x2194, 0x2199), (0x21A9, 0x21AA), (0x231A, 0x231B), (0x2328, 0x2328),
    (0x23CF, 0x23CF), (0x23E9, 0x23F3), (0x23F8, 0x23FA), (0x24C2, 0x24C2), (0x25AA, 0x25AB),
    (0x25B6, 0x25B6), (0x25C0, 0x25C0), (0x25FB, 0x25FE), (0x2600, 0x2604), (0x260E, 0x260E),
    (0x2611, 0x2611), (0x2614, 0x2615), (0x2618, 0x2618), (0x261D, 0x261D), (0x2620, 0x2620),
    (0x2622, 0x2623), (0x2626, 0x2626), (0x262A, 0x262A), (0x262E, 0x262F), (0x2638, 0x263A),
    (0x2640, 0x2640), (0x2642, 0x2642), (0x2648, 0x2653), (0x265F, 0x2660), (0x2663, 0x2663),
    (0x2665, 0x2666), (0x2668, 0x2668), (0x267B, 0x267B), (0x267E, 0x267F), (0x2692, 0x2697),
    (0x2699, 0x2699), (0x269B, 0x269C), (0x26A0, 0x26A1), (0x26A7, 0x26A7), (0x26AA, 0x26AB),
    (0x26B0, 0x26B1), (0x26BD, 0x26BE), (0x26C4, 0x26C5), (0x26C8, 0x26C8), (0x26CE, 0x26CF),
    (0x26D1, 0x26D1), (0x26D3, 0x26D4), (0x26E9, 0x26EA), (0x26F0, 0x26F5), (0x26F7, 0x26FA),
    (0x26FD, 0x26FD), (0x2702, 0x2702), (0x2705, 0x2705), (0x2708, 0x270D), (0x270F, 0x270F),
    (0x2712, 0x2712), (0x2714, 0x2714), (0x2716, 0x2716), (0x271D, 0x271D), (0x2721, 0x2721),
    (0x2728, 0x2728), (0x2733, 0x2734), (0x2744, 0x2744), (0x2747, 0x2747), (0x274C, 0x274C),
    (0x274E, 0x274E), (0x2753, 0x2755), (0x2757, 0x2757), (0x2763, 0x2764), (0x2795, 0x2797),
    (0x27A1, 0x27A1), (0x27B0, 0x27B0), (0x27BF, 0x27BF), (0x2934, 0x2935), (0x2B05, 0x2B07),
    (0x2B1B, 0x2B1C), (0x2B50, 0x2B50), (0x2B55, 0x2B55), (0x3030, 0x3030), (0x303D, 0x303D),
    (0x3297, 0x3297), (0x3299, 0x3299), (0x1F000, 0x1F0FF), (0x1F10D, 0x1F10F), (0x1F12F, 0x1F12F),
    (0x1F170, 0x1F171), (0x1F17E, 0x1F17F), (0x1F18E, 0x1F18E), (0x1F191, 0x1F19A), (0x1F1AD, 0x1F1AD),
    (0x1F1E6, 0x1F1FF), (0x1F201, 0x1F202), (0x1F21A, 0x1F21A), (0x1F22F, 0x1F22F), (0x1F232, 0x1F23A),
    (0x1F250, 0x1F251), (0x1F300, 0x1F9FF), (0x1FA00, 0x1FA6F), (0x1FA70, 0x1FAFF), (0x1FC00, 0x1FFFD),
];

/// Combining marks and joiners, which LB9 attaches to their base.
pub open spec fn is_cm(c: Lb) -> bool {
    c == Lb::CM || c == Lb::ZWJ
}

/// The classes after which LB9 does not attach combining marks.
pub open spec fn is_hard_or_space(c: Lb) -> bool {
    c == Lb::BK || c == Lb::CR || c == Lb::LF || c == Lb::NL || c == Lb::SP || c == Lb::ZW
}

/// LB1: AI, SG and XX resolve to AL, CJ to NS, and SA to CM for marks and
/// to AL otherwise.
pub open spec fn spec_resolve_lb1(c: char) -> Lb {
    let l = spec_lb(c);
    if l == Lb::AI || l == Lb::SG || l == Lb::XX {
        Lb::AL
    } else if l == Lb::CJ {
        Lb::NS
    } else if l == Lb::SA {
        if in_ranges(SA_MARKS@, c as u32) { Lb::CM } else { Lb::AL }
    } else {
        l
    }
}

/// The class of `c` after LB1.
pub fn resolve_lb1(c: char) -> (r: Lb)
    ensures
        r == spec_resolve_lb1(c),
{
    let l = lb(c);
    match l {
        Lb::AI | Lb::SG | Lb::XX => Lb::AL,
        Lb::CJ => Lb::NS,
        Lb::SA => if ranges_contain(SA_MARKS.as_slice(), c as u32) { Lb::CM } else { Lb::AL },
        _ => l,
    }
}

/// The position of the last class before `i` that is not CM or ZWJ, or -1.
pub open spec fn base_before(cls: Seq<Lb>, i: int) -> int
    decreases i,
{
    if i <= 0 {
        -1
    } else if !is_cm(cls[i - 1]) {
        i - 1
    } else {
        base_before(cls, i - 1)
    }
}

/// LB9/LB10: the class position `i` takes part in the rules with: a CM or
/// ZWJ takes the class of its base unless the base is a break or space
/// class (or missing), in which case it is AL.
pub open spec fn eff_class(cls: Seq<Lb>, i: int) -> Lb {
    if is_cm(cls[i]) {
        let b = base_before(cls, i);
        if b >= 0 && !is_hard_or_space(cls[b]) { cls[b] } else { Lb::AL }
    } else {
        cls[i]
    }
}

/// The effective classes of all positions.
pub open spec fn eff_classes(cls: Seq<Lb>) -> Seq<Lb> {
    Seq::new(cls.len(), |i: int| eff_class(cls, i))
}

/// The position of the base of `j`: the last position at or before `j`
/// that is not CM or ZWJ, or 0.
pub open spec fn base_index(cls: Seq<Lb>, j: int) -> int
    decreases j,
{
    if j <= 0 {
        0
    } else if !is_cm(cls[j]) {
        j
    } else {
        base_index(cls, j - 1)
    }
}

/// The targets of the `X SP*` scans: 0 for OP (LB14), 1 for CL or CP
/// (LB16), 2 for B2 (LB17).
pub open spec fn sp_target(kind: int, c: Lb) -> bool {
    if kind == 0 {
        c == Lb::OP
    } else if kind == 1 {
        c == Lb::CL || c == Lb::CP
    } else {
        c == Lb::B2
    }
}

/// Whether position `j` ends `X SP*` for the target `kind`.
pub open spec fn after_target_sp(eff: Seq<Lb>, cls: Seq<Lb>, j: int, kind: int) -> bool
    decreases j,
{
    if j < 0 {
        false
    } else if sp_target(kind, eff[j]) {
        true
    } else if cls[j] != Lb::SP || j == 0 {
        false
    } else {
        after_target_sp(eff, cls, j - 1, kind)
    }
}

pub open spec fn is_qu_pi(cp: u32) -> bool {
    in_ranges(QU_PI@, cp)
}

pub open spec fn is_qu_pf(cp: u32) -> bool {
    in_ranges(QU_PF@, cp)
}

/// The classes that may precede an initial quotation mark for LB15a.
pub open spec fn lb15a_before(c: Lb) -> bool {
    c == Lb::BK || c == Lb::CR || c == Lb::LF || c == Lb::NL || c == Lb::OP || c == Lb::QU
        || c == Lb::GL || c == Lb::SP || c == Lb::ZW
}

/// LB15a: whether position `j` ends `(sot | BK | CR | LF | NL | OP | QU |
/// GL | SP | ZW) QU_Pi SP*`.
pub open spec fn after_qu_pi_sp(eff: Seq<Lb>, cls: Seq<Lb>, cps: Seq<u32>, j: int) -> bool
    decreases j,
{
    if j < 0 {
        false
    } else if eff[j] == Lb::QU {
        let b = base_index(cls, j);
        is_qu_pi(cps[b]) && (b == 0 || lb15a_before(eff[b - 1]))
    } else if cls[j] != Lb::SP || j == 0 {
        false
    } else {
        after_qu_pi_sp(eff, cls, cps, j - 1)
    }
}

/// LB15b: what may follow a final quotation mark at `q`.
pub open spec fn lb15b_after(cls: Seq<Lb>, q: int) -> bool {
    q + 1 >= cls.len() || {
        let c = cls[q + 1];
        c == Lb::SP || c == Lb::GL || c == Lb::WJ || c == Lb::CL || c == Lb::QU || c == Lb::CP
            || c == Lb::EX || c == Lb::IS || c == Lb::SY || c == Lb::BK || c == Lb::CR
            || c == Lb::LF || c == Lb::NL || c == Lb::ZW
    }
}

/// The effective class of the base of `j` (AL when there is none).
pub open spec fn eff_before(eff: Seq<Lb>, cls: Seq<Lb>, j: int) -> Lb
    decreases j,
{
    if j < 0 {
        Lb::AL
    } else if !is_cm(cls[j]) {
        eff[j]
    } else if j == 0 {
        Lb::AL
    } else {
        eff_before(eff, cls, j - 1)
    }
}

/// The first position at or after `k` that is not CM or ZWJ (or the end).
pub open spec fn next_non_cm(cls: Seq<Lb>, k: int) -> int
    decreases cls.len() - k,
{
    if k < 0 || k >= cls.len() || !is_cm(cls[k]) {
        k
    } else {
        next_non_cm(cls, k + 1)
    }
}

/// The first position at or after `k` that is not SP (or the end).
pub open spec fn skip_sp(cls: Seq<Lb>, k: int) -> int
    decreases cls.len() - k,
{
    if k < 0 || k >= cls.len() || cls[k] != Lb::SP {
        k
    } else {
        skip_sp(cls, k + 1)
    }
}

/// Whether position `j` ends `NU (NU | SY | IS)*`.
pub open spec fn in_numeric(eff: Seq<Lb>, j: int) -> bool
    decreases j,
{
    if j < 0 {
        false
    } else if eff[j] == Lb::NU {
        true
    } else if (eff[j] != Lb::SY && eff[j] != Lb::IS) || j == 0 {
        false
    } else {
        in_numeric(eff, j - 1)
    }
}

/// The regional indicators (by raw class) in the run of effective RI
/// classes that ends at `j`.
pub open spec fn ri_count(eff: Seq<Lb>, cls: Seq<Lb>, j: int) -> int
    decreases j,
{
    if j < 0 || eff[j] != Lb::RI {
        0
    } else {
        (if cls[j] == Lb::RI { 1int } else { 0int }) + (if j == 0 { 0 } else { ri_count(eff, cls, j - 1) })
    }
}

pub open spec fn is_aksara_base(cp: u32) -> bool {
    cp == 0x25CC
}

pub fn is_cm_exec(c: Lb) -> (r: bool)
    ensures
        r == is_cm(c),
{
    c == Lb::CM || c == Lb::ZWJ
}

pub fn is_hard_or_space_exec(c: Lb) -> (r: bool)
    ensures
        r == is_hard_or_space(c),
{
    c == Lb::BK || c == Lb::CR || c == Lb::LF || c == Lb::NL || c == Lb::SP || c == Lb::ZW
}

/// LB9/LB10 effective classes.
pub fn effective_classes(cls: &Vec<Lb>) -> (eff: Vec<Lb>)
    ensures
        eff@ == eff_classes(cls@),
{
    let n = cls.len();
    let mut eff: Vec<Lb> = Vec::new();
    let mut base: Option<usize> = None;
    let mut i: usize = 0;
    while i < n
        invariant
            n == cls@.len(),
            i <= n,
            eff@.len() == i,
            forall|k: int| 0 <= k < i ==> #[trigger] eff@[k] == eff_class(cls@, k),
            match base {
                Some(b) => b == base_before(cls@, i as int) && b < i,
                None => base_before(cls@, i as int) == -1,
            },
        decreases n - i,
    {
        let c = cls[i];
        if is_cm_exec(c) {
            let e = match base {
                Some(b) => if !is_hard_or_space_exec(cls[b]) { cls[b] } else { Lb::AL },
                None => Lb::AL,
            };
            eff.push(e);
        } else {
            eff.push(c);
            base = Some(i);
        }
        i += 1;
    }
    proof {
        assert(eff@ == eff_classes(cls@));
    }
    eff
}

/// The base position of `j` (see `base_index`).
pub fn find_base_index(cls: &Vec<Lb>, j: usize) -> (r: usize)
    requires
        j < cls@.len(),
    ensures
        r == base_index(cls@, j as int),
        r <= j,
{
    let mut k = j;
    loop
        invariant
            k <= j < cls@.len(),
            base_index(cls@, k as int) == base_index(cls@, j as int),
        decreases k,
    {
        if k == 0 || !is_cm_exec(cls[k]) {
            return k;
        }
        k -= 1;
    }
}

fn target_exec(kind: u8, c: Lb) -> (r: bool)
    ensures
        r == sp_target(kind as int, c),
{
    if kind == 0 {
        c == Lb::OP
    } else if kind == 1 {
        c == Lb::CL || c == Lb::CP
    } else {
        c == Lb::B2
    }
}

/// Whether `j` ends `X SP*` for the target `kind` (see `after_target_sp`).
pub fn is_after_target_sp(eff: &Vec<Lb>, cls: &Vec<Lb>, j: usize, kind: u8) -> (r: bool)
    requires
        j < cls@.len(),
        eff@.len() == cls@.len(),
    ensures
        r == after_target_sp(eff@, cls@, j as int, kind as int),
{
    let mut k = j;
    loop
        invariant
            k <= j < cls@.len(),
            eff@.len() == cls@.len(),
            after_target_sp(eff@, cls@, k as int, kind as int) == after_target_sp(eff@, cls@, j as int, kind as int),
        decreases k,
    {
        if target_exec(kind, eff[k]) {
            return true;
        }
        if cls[k] != Lb::SP || k == 0 {
            return false;
        }
        k -= 1;
    }
}

pub fn qu_pi(cp: u32) -> (r: bool)
    ensures
        r == is_qu_pi(cp),
{
    ranges_contain(QU_PI.as_slice(), cp)
}

pub fn qu_pf(cp: u32) -> (r: bool)
    ensures
        r == is_qu_pf(cp),
{
    ranges_contain(QU_PF.as_slice(), cp)
}

/// LB15a context scan (see `after_qu_pi_sp`).
pub fn is_after_qu_pi_sp(eff: &Vec<Lb>, cls: &Vec<Lb>, cps: &Vec<u32>, j: usize) -> (r: bool)
    requires
        j < cls@.len(),
        eff@.len() == cls@.len(),
        cps@.len() == cls@.len(),
    ensures
        r == after_qu_pi_sp(eff@, cls@, cps@, j as int),
{
    let mut k = j;
    loop
        invariant
            k <= j < cls@.len(),
            eff@.len() == cls@.len(),
            cps@.len() == cls@.len(),
            after_qu_pi_sp(eff@, cls@, cps@, k as int) == after_qu_pi_sp(eff@, cls@, cps@, j as int),
        decreases k,
    {
        if eff[k] == Lb::QU {
            let b = find_base_index(cls, k);
            if qu_pi(cps[b]) {
                if b == 0 {
                    return true;
                }
                let p = eff[b - 1];
                return p == Lb::BK || p == Lb::CR || p == Lb::LF || p == Lb::NL || p == Lb::OP
                    || p == Lb::QU || p == Lb::GL || p == Lb::SP || p == Lb::ZW;
            }
            return false;
        }
        if cls[k] != Lb::SP || k == 0 {
            return false;
        }
        k -= 1;
    }
}

/// LB15b context check (see `lb15b_after`).
pub fn followed_by_lb15b_context(cls: &Vec<Lb>, q: usize) -> (r: bool)
    requires
        q < cls@.len(),
    ensures
        r == lb15b_after(cls@, q as int),
{
    if q >= cls.len() - 1 {
        return true;
    }
    let c = cls[q + 1];
    c == Lb::SP || c == Lb::GL || c == Lb::WJ || c == Lb::CL || c == Lb::QU || c == Lb::CP
        || c == Lb::EX || c == Lb::IS || c == Lb::SY || c == Lb::BK || c == Lb::CR
        || c == Lb::LF || c == Lb::NL || c == Lb::ZW
}

/// The effective class of the base of `j` (see `eff_before`).
pub fn effective_class_before(eff: &Vec<Lb>, cls: &Vec<Lb>, j: usize) -> (r: Lb)
    requires
        j < cls@.len(),
        eff@.len() == cls@.len(),
    ensures
        r == eff_before(eff@, cls@, j as int),
{
    let mut k = j;
    loop
        invariant
            k <= j < cls@.len(),
            eff@.len() == cls@.len(),
            eff_before(eff@, cls@, k as int) == eff_before(eff@, cls@, j as int),
        decreases k,
    {
        if !is_cm_exec(cls[k]) {
            return eff[k];
        }
        if k == 0 {
            return Lb::AL;
        }
        k -= 1;
    }
}

/// The first position at or after `k` that is not CM or ZWJ.
pub fn find_next_non_cm(cls: &Vec<Lb>, k: usize) -> (r: usize)
    requires
        k <= cls@.len(),
    ensures
        r == next_non_cm(cls@, k as int),
        k <= r <= cls@.len(),
{
    let mut m = k;
    while m < cls.len() && is_cm_exec(cls[m])
        invariant
            k <= m <= cls@.len(),
            next_non_cm(cls@, m as int) == next_non_cm(cls@, k as int),
        decreases cls@.len() - m,
    {
        m += 1;
    }
    m
}

/// The first position at or after `k` that is not SP.
pub fn skip_spaces(cls: &Vec<Lb>, k: usize) -> (r: usize)
    requires
        k <= cls@.len(),
    ensures
        r == skip_sp(cls@, k as int),
        k <= r <= cls@.len(),
{
    let mut m = k;
    while m < cls.len() && cls[m] == Lb::SP
        invariant
            k <= m <= cls@.len(),
            skip_sp(cls@, m as int) == skip_sp(cls@, k as int),
        decreases cls@.len() - m,
    {
        m += 1;
    }
    m
}

/// Whether `j` ends a numeric sequence (see `in_numeric`).
pub fn is_in_numeric_sequence(eff: &Vec<Lb>, j: usize) -> (r: bool)
    requires
        j < eff@.len(),
    ensures
        r == in_numeric(eff@, j as int),
{
    let mut k = j;
    loop
        invariant
            k <= j < eff@.len(),
            in_numeric(eff@, k as int) == in_numeric(eff@, j as int),
        decreases k,
    {
        let c = eff[k];
        if c == Lb::NU {
            return true;
        }
        if (c != Lb::SY && c != Lb::IS) || k == 0 {
            return false;
        }
        k -= 1;
    }
}

/// The parity of the regional indicators before and at `j` in its run of
/// effective RI classes (see `ri_count`): true when odd.
pub fn ri_run_is_odd(eff: &Vec<Lb>, cls: &Vec<Lb>, j: usize) -> (r: bool)
    requires
        j < cls@.len(),
        eff@.len() == cls@.len(),
    ensures
        r == (ri_count(eff@, cls@, j as int) % 2 == 1),
{
    let n = cls.len();
    let mut odd = false;
    let mut k: usize = j + 1;
    while k > 0 && eff[k - 1] == Lb::RI
        invariant
            k <= j + 1 <= cls@.len(),
            eff@.len() == cls@.len(),
            (ri_count(eff@, cls@, j as int) - ri_count(eff@, cls@, k - 1)) % 2 == (if odd { 1int } else { 0int }),
        decreases k,
    {
        if cls[k - 1] == Lb::RI {
            odd = !odd;
        }
        k -= 1;
    }
    odd
}

pub fn is_unassigned_pictographic(cp: u32) -> (r: bool)
    ensures
        r == in_ranges(UNASSIGNED_PICTOGRAPHIC@, cp),
{
    ranges_contain(UNASSIGNED_PICTOGRAPHIC.as_slice(), cp)
}

pub fn is_pictographic(cp: u32) -> (r: bool)
    ensures
        r == in_ranges(PICTOGRAPHIC@, cp),
{
    ranges_contain(PICTOGRAPHIC.as_slice(), cp)
}

} // verus!

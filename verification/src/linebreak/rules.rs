//! LB4-LB31: the decision between two adjacent characters.
use vstd::prelude::*;

use crate::data::line_break::{is_east_asian_wide, spec_is_east_asian_wide, Lb};
use crate::text::in_ranges;
use super::classes::{
    after_qu_pi_sp, after_target_sp, base_index, eff_before, effective_class_before, find_base_index,
    find_next_non_cm, followed_by_lb15b_context, in_numeric, is_after_qu_pi_sp, is_after_target_sp,
    is_aksara_base, is_cm, is_cm_exec, is_hard_or_space, is_hard_or_space_exec, is_in_numeric_sequence,
    is_pictographic, is_qu_pf, is_qu_pi, is_unassigned_pictographic, lb15b_after, next_non_cm, qu_pf,
    qu_pi, ri_count, ri_run_is_odd, skip_sp, skip_spaces, PICTOGRAPHIC, UNASSIGNED_PICTOGRAPHIC,
};

verus! {

/// Whether a break is mandatory, allowed (an opportunity) or prohibited.
#[derive(Debug, Clone, Copy, PartialEq, Eq, Structural)]
pub enum BreakAction {
    /// A mandatory break (hard line break).
    Mandatory,
    /// A break opportunity.
    Allowed,
    /// No break permitted.
    Prohibited,
}

/// LB4-LB8 (the rules that read or update the `ZW SP*` state): the action
/// between `i` and `i + 1` and the new state, or `None` to go on.
pub open spec fn lb_head(cls: Seq<Lb>, i: int, zw: bool) -> Option<(BreakAction, bool)> {
    let cb = cls[i];
    let ca = cls[i + 1];
    if cb == Lb::BK {
        Some((BreakAction::Mandatory, false))
    } else if cb == Lb::CR && ca == Lb::LF {
        Some((BreakAction::Prohibited, false))
    } else if cb == Lb::CR || cb == Lb::LF || cb == Lb::NL {
        Some((BreakAction::Mandatory, false))
    } else if ca == Lb::BK || ca == Lb::CR || ca == Lb::LF || ca == Lb::NL {
        Some((BreakAction::Prohibited, zw))
    } else if ca == Lb::SP || ca == Lb::ZW {
        Some((BreakAction::Prohibited, ca == Lb::ZW || cb == Lb::ZW || zw))
    } else if zw {
        Some((BreakAction::Allowed, false))
    } else {
        None
    }
}

/// LB8 (after ZW), LB8a, LB9 and LB11-LB18.
pub open spec fn rules_a(cls: Seq<Lb>, eff: Seq<Lb>, cps: Seq<u32>, i: int) -> Option<BreakAction> {
    let n = cls.len();
    let cb = cls[i];
    let ca = cls[i + 1];
    let eb = eff[i];
    let ea = eff[i + 1];
    if cb == Lb::ZW {
        Some(BreakAction::Allowed)
    } else if cb == Lb::ZWJ {
        Some(BreakAction::Prohibited)
    } else if is_cm(ca) && !is_hard_or_space(eb) {
        Some(BreakAction::Prohibited)
    } else if ea == Lb::WJ || eb == Lb::WJ {
        Some(BreakAction::Prohibited)
    } else if eb == Lb::GL {
        Some(BreakAction::Prohibited)
    } else if ea == Lb::GL && eb != Lb::SP && eb != Lb::BA && eb != Lb::HY && eb != Lb::HH {
        Some(BreakAction::Prohibited)
    } else if ea == Lb::CL || ea == Lb::CP || ea == Lb::EX || ea == Lb::SY {
        Some(BreakAction::Prohibited)
    } else if ea == Lb::IS {
        if cb == Lb::SP && i + 2 < n && eff[i + 2] == Lb::NU {
            Some(BreakAction::Allowed)
        } else {
            Some(BreakAction::Prohibited)
        }
    } else if after_target_sp(eff, cls, i, 0) {
        Some(BreakAction::Prohibited)
    } else if after_qu_pi_sp(eff, cls, cps, i) {
        Some(BreakAction::Prohibited)
    } else if ea == Lb::QU && is_qu_pf(cps[i + 1]) && lb15b_after(cls, i + 1) {
        Some(BreakAction::Prohibited)
    } else if ea == Lb::NS && after_target_sp(eff, cls, i, 1) {
        Some(BreakAction::Prohibited)
    } else if ea == Lb::B2 && after_target_sp(eff, cls, i, 2) {
        Some(BreakAction::Prohibited)
    } else if cb == Lb::SP {
        Some(BreakAction::Allowed)
    } else {
        None
    }
}

/// The classes before a word-initial hyphen (LB20a).
pub open spec fn lb20a_before(c: Lb) -> bool {
    c == Lb::BK || c == Lb::CR || c == Lb::LF || c == Lb::NL || c == Lb::SP || c == Lb::ZW
        || c == Lb::CB || c == Lb::GL || c == Lb::OP || c == Lb::QU
}

/// LB19-LB24.
pub open spec fn rules_b(cls: Seq<Lb>, eff: Seq<Lb>, cps: Seq<u32>, i: int) -> Option<BreakAction> {
    let n = cls.len();
    let eb = eff[i];
    let ea = eff[i + 1];
    let bb = base_index(cls, i);
    if ea == Lb::QU && !is_qu_pi(cps[i + 1]) {
        Some(BreakAction::Prohibited)
    } else if eb == Lb::QU && !is_qu_pf(cps[bb]) {
        Some(BreakAction::Prohibited)
    } else if ea == Lb::QU && !spec_is_east_asian_wide(cps[bb]) {
        Some(BreakAction::Prohibited)
    } else if ea == Lb::QU && !(i + 2 < n && spec_is_east_asian_wide(cps[i + 2])) {
        Some(BreakAction::Prohibited)
    } else if eb == Lb::QU && !spec_is_east_asian_wide(cps[i + 1]) {
        Some(BreakAction::Prohibited)
    } else if eb == Lb::QU && !(bb > 0 && spec_is_east_asian_wide(cps[bb - 1])) {
        Some(BreakAction::Prohibited)
    } else if eb == Lb::CB || ea == Lb::CB {
        Some(BreakAction::Allowed)
    } else if (eb == Lb::HY || eb == Lb::HH) && (ea == Lb::AL || ea == Lb::HL)
        && (bb == 0 || lb20a_before(eff[bb - 1])) {
        Some(BreakAction::Prohibited)
    } else if ea == Lb::BA || ea == Lb::HH || ea == Lb::HY || ea == Lb::NS {
        Some(BreakAction::Prohibited)
    } else if eb == Lb::BB {
        Some(BreakAction::Prohibited)
    } else if (eb == Lb::HY || eb == Lb::HH) && ea != Lb::HL && i >= 1 && eff_before(eff, cls, i - 1) == Lb::HL {
        Some(BreakAction::Prohibited)
    } else if eb == Lb::SY && ea == Lb::HL {
        Some(BreakAction::Prohibited)
    } else if ea == Lb::IN {
        Some(BreakAction::Prohibited)
    } else if (eb == Lb::AL || eb == Lb::HL) && ea == Lb::NU {
        Some(BreakAction::Prohibited)
    } else if eb == Lb::NU && (ea == Lb::AL || ea == Lb::HL) {
        Some(BreakAction::Prohibited)
    } else if eb == Lb::PR && (ea == Lb::ID || ea == Lb::EB || ea == Lb::EM) {
        Some(BreakAction::Prohibited)
    } else if (eb == Lb::ID || eb == Lb::EB || eb == Lb::EM) && ea == Lb::PO {
        Some(BreakAction::Prohibited)
    } else if (eb == Lb::PR || eb == Lb::PO) && (ea == Lb::AL || ea == Lb::HL) {
        Some(BreakAction::Prohibited)
    } else if (eb == Lb::AL || eb == Lb::HL) && (ea == Lb::PR || ea == Lb::PO) {
        Some(BreakAction::Prohibited)
    } else {
        None
    }
}

/// LB25: no break inside a numeric expression.
pub open spec fn lb25(cls: Seq<Lb>, eff: Seq<Lb>, i: int) -> bool {
    let n = cls.len();
    let eb = eff[i];
    let ea = eff[i + 1];
    if (eb == Lb::PR || eb == Lb::PO) && (ea == Lb::NU || ea == Lb::OP || ea == Lb::HY)
        && (ea == Lb::NU || (i + 2 < n && eff[i + 2] == Lb::NU)
            || (ea == Lb::OP && skip_sp(cls, i + 2) < n && eff[skip_sp(cls, i + 2)] == Lb::NU)) {
        true
    } else if (ea == Lb::NU || ea == Lb::SY || ea == Lb::IS || ea == Lb::CL || ea == Lb::CP) && in_numeric(eff, i) {
        true
    } else if (ea == Lb::PO || ea == Lb::PR) && (if eb == Lb::CL || eb == Lb::CP {
        i > 0 && in_numeric(eff, i - 1)
    } else {
        in_numeric(eff, i)
    }) {
        true
    } else if (eb == Lb::HY || eb == Lb::OP) && ea == Lb::NU {
        true
    } else {
        eb == Lb::IS && ea == Lb::NU
    }
}

pub open spec fn is_korean_jamo(c: Lb) -> bool {
    c == Lb::JL || c == Lb::JV || c == Lb::JT || c == Lb::H2 || c == Lb::H3
}

/// The aksara before the virama whose base is the base of `i` (LB28a).
pub open spec fn vi_after_aksara(cls: Seq<Lb>, eff: Seq<Lb>, cps: Seq<u32>, i: int) -> bool {
    let vb = base_index(cls, i);
    vb > 0 && {
        let p = eff_before(eff, cls, vb - 1);
        p == Lb::AK || p == Lb::AS || is_aksara_base(cps[base_index(cls, vb - 1)])
    }
}

/// LB25-LB31.
pub open spec fn rules_c(cls: Seq<Lb>, eff: Seq<Lb>, cps: Seq<u32>, i: int) -> BreakAction {
    let n = cls.len();
    let eb = eff[i];
    let ea = eff[i + 1];
    let bb = base_index(cls, i);
    let ba = base_index(cls, i + 1);
    let eb_ak = eb == Lb::AK || eb == Lb::AS || is_aksara_base(cps[bb]);
    let ea_ak = ea == Lb::AK || ea == Lb::AS || is_aksara_base(cps[ba]);
    let nn = next_non_cm(cls, i + 2);
    if lb25(cls, eff, i) {
        BreakAction::Prohibited
    } else if eb == Lb::JL && (ea == Lb::JL || ea == Lb::JV || ea == Lb::H2 || ea == Lb::H3) {
        BreakAction::Prohibited
    } else if (eb == Lb::JV || eb == Lb::H2) && (ea == Lb::JV || ea == Lb::JT) {
        BreakAction::Prohibited
    } else if (eb == Lb::JT || eb == Lb::H3) && ea == Lb::JT {
        BreakAction::Prohibited
    } else if is_korean_jamo(eb) && ea == Lb::PO {
        BreakAction::Prohibited
    } else if eb == Lb::PR && is_korean_jamo(ea) {
        BreakAction::Prohibited
    } else if (eb == Lb::AL || eb == Lb::HL) && (ea == Lb::AL || ea == Lb::HL) {
        BreakAction::Prohibited
    } else if eb == Lb::AP && ea_ak {
        BreakAction::Prohibited
    } else if ea_ak && eb == Lb::VI && vi_after_aksara(cls, eff, cps, i) {
        BreakAction::Prohibited
    } else if ea == Lb::VF && eb == Lb::VI && vi_after_aksara(cls, eff, cps, i) {
        BreakAction::Prohibited
    } else if eb_ak && ea_ak && nn < n && eff[nn] == Lb::VF {
        BreakAction::Prohibited
    } else if eb_ak && (ea == Lb::VF || ea == Lb::VI) {
        BreakAction::Prohibited
    } else if eb == Lb::IS && (ea == Lb::AL || ea == Lb::HL) {
        BreakAction::Prohibited
    } else if (eb == Lb::AL || eb == Lb::HL || eb == Lb::NU) && ea == Lb::OP && !spec_is_east_asian_wide(cps[i + 1]) {
        BreakAction::Prohibited
    } else if eb == Lb::CP && (ea == Lb::AL || ea == Lb::HL || ea == Lb::NU) && !spec_is_east_asian_wide(cps[i]) {
        BreakAction::Prohibited
    } else if eb == Lb::RI && ea == Lb::RI && ri_count(eff, cls, i) % 2 == 1 {
        BreakAction::Prohibited
    } else if eb == Lb::EB && ea == Lb::EM {
        BreakAction::Prohibited
    } else if ea == Lb::EM && in_ranges(PICTOGRAPHIC@, cps[bb]) && in_ranges(UNASSIGNED_PICTOGRAPHIC@, cps[bb]) {
        BreakAction::Prohibited
    } else {
        BreakAction::Allowed
    }
}

/// The action between positions `i` and `i + 1`, and the new `ZW SP*` state.
pub open spec fn lb_decide(cls: Seq<Lb>, eff: Seq<Lb>, cps: Seq<u32>, i: int, zw: bool) -> (BreakAction, bool) {
    match lb_head(cls, i, zw) {
        Some(r) => r,
        None => match rules_a(cls, eff, cps, i) {
            Some(a) => (a, zw),
            None => match rules_b(cls, eff, cps, i) {
                Some(a) => (a, zw),
                None => (rules_c(cls, eff, cps, i), zw),
            },
        },
    }
}

/// The inputs that the rule functions need: classes, effective classes and
/// code points of the same length, with `i + 1` inside.
pub open spec fn ctx_ok(cls: Seq<Lb>, eff: Seq<Lb>, cps: Seq<u32>, i: int) -> bool {
    &&& eff.len() == cls.len()
    &&& cps.len() == cls.len()
    &&& 0 <= i
    &&& i + 1 < cls.len()
}

fn head_exec(cls: &Vec<Lb>, i: usize, zw: bool) -> (r: Option<(BreakAction, bool)>)
    requires
        i + 1 < cls@.len(),
    ensures
        r == lb_head(cls@, i as int, zw),
{
    let _n = cls.len();
    let cb = cls[i];
    let ca = cls[i + 1];
    if cb == Lb::BK {
        Some((BreakAction::Mandatory, false))
    } else if cb == Lb::CR && ca == Lb::LF {
        Some((BreakAction::Prohibited, false))
    } else if cb == Lb::CR || cb == Lb::LF || cb == Lb::NL {
        Some((BreakAction::Mandatory, false))
    } else if ca == Lb::BK || ca == Lb::CR || ca == Lb::LF || ca == Lb::NL {
        Some((BreakAction::Prohibited, zw))
    } else if ca == Lb::SP || ca == Lb::ZW {
        Some((BreakAction::Prohibited, ca == Lb::ZW || cb == Lb::ZW || zw))
    } else if zw {
        Some((BreakAction::Allowed, false))
    } else {
        None
    }
}

fn rules_a_exec(cls: &Vec<Lb>, eff: &Vec<Lb>, cps: &Vec<u32>, i: usize) -> (r: Option<BreakAction>)
    requires
        ctx_ok(cls@, eff@, cps@, i as int),
    ensures
        r == rules_a(cls@, eff@, cps@, i as int),
{
    let n = cls.len();
    let cb = cls[i];
    let ca = cls[i + 1];
    let eb = eff[i];
    let ea = eff[i + 1];
    if cb == Lb::ZW {
        Some(BreakAction::Allowed)
    } else if cb == Lb::ZWJ {
        Some(BreakAction::Prohibited)
    } else if is_cm_exec(ca) && !is_hard_or_space_exec(eb) {
        Some(BreakAction::Prohibited)
    } else if ea == Lb::WJ || eb == Lb::WJ {
        Some(BreakAction::Prohibited)
    } else if eb == Lb::GL {
        Some(BreakAction::Prohibited)
    } else if ea == Lb::GL && eb != Lb::SP && eb != Lb::BA && eb != Lb::HY && eb != Lb::HH {
        Some(BreakAction::Prohibited)
    } else if ea == Lb::CL || ea == Lb::CP || ea == Lb::EX || ea == Lb::SY {
        Some(BreakAction::Prohibited)
    } else if ea == Lb::IS {
        if cb == Lb::SP && i + 2 < n && eff[i + 2] == Lb::NU {
            Some(BreakAction::Allowed)
        } else {
            Some(BreakAction::Prohibited)
        }
    } else if is_after_target_sp(eff, cls, i, 0) {
        Some(BreakAction::Prohibited)
    } else if is_after_qu_pi_sp(eff, cls, cps, i) {
        Some(BreakAction::Prohibited)
    } else if ea == Lb::QU && qu_pf(cps[i + 1]) && followed_by_lb15b_context(cls, i + 1) {
        Some(BreakAction::Prohibited)
    } else if ea == Lb::NS && is_after_target_sp(eff, cls, i, 1) {
        Some(BreakAction::Prohibited)
    } else if ea == Lb::B2 && is_after_target_sp(eff, cls, i, 2) {
        Some(BreakAction::Prohibited)
    } else if cb == Lb::SP {
        Some(BreakAction::Allowed)
    } else {
        None
    }
}

fn rules_b_exec(cls: &Vec<Lb>, eff: &Vec<Lb>, cps: &Vec<u32>, i: usize) -> (r: Option<BreakAction>)
    requires
        ctx_ok(cls@, eff@, cps@, i as int),
    ensures
        r == rules_b(cls@, eff@, cps@, i as int),
{
    let n = cls.len();
    let eb = eff[i];
    let ea = eff[i + 1];
    let bb = find_base_index(cls, i);
    if ea == Lb::QU && !qu_pi(cps[i + 1]) {
        Some(BreakAction::Prohibited)
    } else if eb == Lb::QU && !qu_pf(cps[bb]) {
        Some(BreakAction::Prohibited)
    } else if ea == Lb::QU && !is_east_asian_wide(cps[bb]) {
        Some(BreakAction::Prohibited)
    } else if ea == Lb::QU && !(i + 2 < n && is_east_asian_wide(cps[i + 2])) {
        Some(BreakAction::Prohibited)
    } else if eb == Lb::QU && !is_east_asian_wide(cps[i + 1]) {
        Some(BreakAction::Prohibited)
    } else if eb == Lb::QU && !(bb > 0 && is_east_asian_wide(cps[bb - 1])) {
        Some(BreakAction::Prohibited)
    } else if eb == Lb::CB || ea == Lb::CB {
        Some(BreakAction::Allowed)
    } else if (eb == Lb::HY || eb == Lb::HH) && (ea == Lb::AL || ea == Lb::HL) && (bb == 0 || {
        let c = eff[bb - 1];
        c == Lb::BK || c == Lb::CR || c == Lb::LF || c == Lb::NL || c == Lb::SP || c == Lb::ZW
            || c == Lb::CB || c == Lb::GL || c == Lb::OP || c == Lb::QU
    }) {
        Some(BreakAction::Prohibited)
    } else if ea == Lb::BA || ea == Lb::HH || ea == Lb::HY || ea == Lb::NS {
        Some(BreakAction::Prohibited)
    } else if eb == Lb::BB {
        Some(BreakAction::Prohibited)
    } else if (eb == Lb::HY || eb == Lb::HH) && ea != Lb::HL && i >= 1 && effective_class_before(eff, cls, i - 1) == Lb::HL {
        Some(BreakAction::Prohibited)
    } else if eb == Lb::SY && ea == Lb::HL {
        Some(BreakAction::Prohibited)
    } else if ea == Lb::IN {
        Some(BreakAction::Prohibited)
    } else if (eb == Lb::AL || eb == Lb::HL) && ea == Lb::NU {
        Some(BreakAction::Prohibited)
    } else if eb == Lb::NU && (ea == Lb::AL || ea == Lb::HL) {
        Some(BreakAction::Prohibited)
    } else if eb == Lb::PR && (ea == Lb::ID || ea == Lb::EB || ea == Lb::EM) {
        Some(BreakAction::Prohibited)
    } else if (eb == Lb::ID || eb == Lb::EB || eb == Lb::EM) && ea == Lb::PO {
        Some(BreakAction::Prohibited)
    } else if (eb == Lb::PR || eb == Lb::PO) && (ea == Lb::AL || ea == Lb::HL) {
        Some(BreakAction::Prohibited)
    } else if (eb == Lb::AL || eb == Lb::HL) && (ea == Lb::PR || ea == Lb::PO) {
        Some(BreakAction::Prohibited)
    } else {
        None
    }
}

fn lb25_exec(cls: &Vec<Lb>, eff: &Vec<Lb>, i: usize) -> (r: bool)
    requires
        eff@.len() == cls@.len(),
        i + 1 < cls@.len(),
    ensures
        r == lb25(cls@, eff@, i as int),
{
    let n = cls.len();
    let eb = eff[i];
    let ea = eff[i + 1];
    if (eb == Lb::PR || eb == Lb::PO) && (ea == Lb::NU || ea == Lb::OP || ea == Lb::HY) {
        if ea == Lb::NU {
            return true;
        }
        if i + 2 < n && eff[i + 2] == Lb::NU {
            return true;
        }
        if ea == Lb::OP {
            let k = skip_spaces(cls, i + 2);
            if k < n && eff[k] == Lb::NU {
                return true;
            }
        }
    }
    if (ea == Lb::NU || ea == Lb::SY || ea == Lb::IS || ea == Lb::CL || ea == Lb::CP) && is_in_numeric_sequence(eff, i) {
        return true;
    }
    if ea == Lb::PO || ea == Lb::PR {
        let post = if eb == Lb::CL || eb == Lb::CP {
            i > 0 && is_in_numeric_sequence(eff, i - 1)
        } else {
            is_in_numeric_sequence(eff, i)
        };
        if post {
            return true;
        }
    }
    if (eb == Lb::HY || eb == Lb::OP) && ea == Lb::NU {
        return true;
    }
    eb == Lb::IS && ea == Lb::NU
}

fn jamo(c: Lb) -> (r: bool)
    ensures
        r == is_korean_jamo(c),
{
    c == Lb::JL || c == Lb::JV || c == Lb::JT || c == Lb::H2 || c == Lb::H3
}

fn vi_after_aksara_exec(cls: &Vec<Lb>, eff: &Vec<Lb>, cps: &Vec<u32>, i: usize) -> (r: bool)
    requires
        ctx_ok(cls@, eff@, cps@, i as int),
    ensures
        r == vi_after_aksara(cls@, eff@, cps@, i as int),
{
    let vb = find_base_index(cls, i);
    if vb == 0 {
        return false;
    }
    let p = effective_class_before(eff, cls, vb - 1);
    let pb = find_base_index(cls, vb - 1);
    p == Lb::AK || p == Lb::AS || cps[pb] == 0x25CC
}

fn rules_c_exec(cls: &Vec<Lb>, eff: &Vec<Lb>, cps: &Vec<u32>, i: usize) -> (r: BreakAction)
    requires
        ctx_ok(cls@, eff@, cps@, i as int),
    ensures
        r == rules_c(cls@, eff@, cps@, i as int),
{
    let n = cls.len();
    let eb = eff[i];
    let ea = eff[i + 1];
    let bb = find_base_index(cls, i);
    let ba = find_base_index(cls, i + 1);
    let eb_ak = eb == Lb::AK || eb == Lb::AS || cps[bb] == 0x25CC;
    let ea_ak = ea == Lb::AK || ea == Lb::AS || cps[ba] == 0x25CC;
    let nn = find_next_non_cm(cls, i + 2);
    if lb25_exec(cls, eff, i) {
        BreakAction::Prohibited
    } else if eb == Lb::JL && (ea == Lb::JL || ea == Lb::JV || ea == Lb::H2 || ea == Lb::H3) {
        BreakAction::Prohibited
    } else if (eb == Lb::JV || eb == Lb::H2) && (ea == Lb::JV || ea == Lb::JT) {
        BreakAction::Prohibited
    } else if (eb == Lb::JT || eb == Lb::H3) && ea == Lb::JT {
        BreakAction::Prohibited
    } else if jamo(eb) && ea == Lb::PO {
        BreakAction::Prohibited
    } else if eb == Lb::PR && jamo(ea) {
        BreakAction::Prohibited
    } else if (eb == Lb::AL || eb == Lb::HL) && (ea == Lb::AL || ea == Lb::HL) {
        BreakAction::Prohibited
    } else if eb == Lb::AP && ea_ak {
        BreakAction::Prohibited
    } else if ea_ak && eb == Lb::VI && vi_after_aksara_exec(cls, eff, cps, i) {
        BreakAction::Prohibited
    } else if ea == Lb::VF && eb == Lb::VI && vi_after_aksara_exec(cls, eff, cps, i) {
        BreakAction::Prohibited
    } else if eb_ak && ea_ak && nn < n && eff[nn] == Lb::VF {
        BreakAction::Prohibited
    } else if eb_ak && (ea == Lb::VF || ea == Lb::VI) {
        BreakAction::Prohibited
    } else if eb == Lb::IS && (ea == Lb::AL || ea == Lb::HL) {
        BreakAction::Prohibited
    } else if (eb == Lb::AL || eb == Lb::HL || eb == Lb::NU) && ea == Lb::OP && !is_east_asian_wide(cps[i + 1]) {
        BreakAction::Prohibited
    } else if eb == Lb::CP && (ea == Lb::AL || ea == Lb::HL || ea == Lb::NU) && !is_east_asian_wide(cps[i]) {
        BreakAction::Prohibited
    } else if eb == Lb::RI && ea == Lb::RI && ri_run_is_odd(eff, cls, i) {
        BreakAction::Prohibited
    } else if eb == Lb::EB && ea == Lb::EM {
        BreakAction::Prohibited
    } else if ea == Lb::EM && is_pictographic(cps[bb]) && is_unassigned_pictographic(cps[bb]) {
        BreakAction::Prohibited
    } else {
        BreakAction::Allowed
    }
}

/// The action between `i` and `i + 1` and the new `ZW SP*` state (see
/// `lb_decide`).
pub fn decide(cls: &Vec<Lb>, eff: &Vec<Lb>, cps: &Vec<u32>, i: usize, zw: bool) -> (r: (BreakAction, bool))
    requires
        ctx_ok(cls@, eff@, cps@, i as int),
    ensures
        r == lb_decide(cls@, eff@, cps@, i as int, zw),
{
    match head_exec(cls, i, zw) {
        Some(r) => r,
        None => match rules_a_exec(cls, eff, cps, i) {
            Some(a) => (a, zw),
            None => match rules_b_exec(cls, eff, cps, i) {
                Some(a) => (a, zw),
                None => (rules_c_exec(cls, eff, cps, i), zw),
            },
        },
    }
}

} // verus!

use uniworld::bidi::{resolve, resolve_classes, Class};

#[test]
fn test_simple_ltr() {
    let info = resolve("hello", None);
    assert_eq!(info.paragraph_level, 0);
    assert_eq!(info.levels, vec![0, 0, 0, 0, 0]);
    assert_eq!(info.reorder, vec![0, 1, 2, 3, 4]);
}

#[test]
fn test_simple_rtl() {
    let info = resolve("\u{05D0}\u{05D1}\u{05D2}", None);
    assert_eq!(info.paragraph_level, 1);
    assert_eq!(info.levels, vec![1, 1, 1]);
    assert_eq!(info.reorder, vec![2, 1, 0]);
}

#[test]
fn test_mixed_ltr_rtl() {
    let info = resolve("abc\u{05D0}\u{05D1}\u{05D2}", None);
    assert_eq!(info.paragraph_level, 0);
    assert_eq!(info.levels, vec![0, 0, 0, 1, 1, 1]);
    assert_eq!(info.reorder, vec![0, 1, 2, 5, 4, 3]);
}

#[test]
fn test_empty() {
    let info = resolve("", None);
    assert_eq!(info.paragraph_level, 0);
    assert!(info.levels.is_empty());
    assert!(info.reorder.is_empty());
}

#[test]
fn bidi_override_forces_rtl() {
    let info = resolve("abc", Some(1));
    assert_eq!(info.paragraph_level, 1);
    assert_eq!(info.levels, vec![2, 2, 2]);
    assert_eq!(info.reorder, vec![0, 1, 2]);
}

#[test]
fn bidi_removed_controls_get_max_level() {
    // LRE ... PDF are removed by X9.
    let info = resolve("a\u{202A}b\u{202C}c", None);
    assert_eq!(info.levels[1], u8::MAX);
    assert_eq!(info.levels[3], u8::MAX);
    assert_eq!(info.reorder.len(), 3);
    assert!(!info.reorder.contains(&1));
    assert!(!info.reorder.contains(&3));
}

#[test]
fn bidi_numbers_in_rtl() {
    // Hebrew letters then European digits: the digits get level 2 and keep
    // their order.
    let info = resolve("\u{05D0}\u{05D1} 12", None);
    assert_eq!(info.paragraph_level, 1);
    assert_eq!(info.levels, vec![1, 1, 1, 2, 2]);
    assert_eq!(info.reorder, vec![3, 4, 2, 1, 0]);
}

#[test]
fn bidi_brackets_pair_to_embedding_direction() {
    let info = resolve("a(b)\u{05D0}", None);
    assert_eq!(info.paragraph_level, 0);
    assert_eq!(info.levels, vec![0, 0, 0, 0, 1]);
}

#[test]
fn bidi_classes_only() {
    let info = resolve_classes(&[Class::R, Class::WS, Class::L], None);
    assert_eq!(info.paragraph_level, 1);
    assert_eq!(info.levels, vec![1, 1, 2]);
    assert_eq!(info.reorder, vec![2, 1, 0]);
}

#[test]
fn bidi_trailing_whitespace_reset() {
    // L1: trailing whitespace takes the paragraph level.
    let info = resolve("\u{05D0} ", Some(0));
    assert_eq!(info.levels, vec![1, 0]);
}

#[test]
fn bracket_pair_takes_context_direction() {
    // In an RTL paragraph, "(b)" after "a" pairs its brackets (N0c): both
    // take the direction of the preceding L, so all four characters rise
    // to level 2.
    let info = resolve("a(b)", Some(1));
    assert_eq!(info.paragraph_level, 1);
    assert_eq!(info.levels, vec![2, 2, 2, 2]);
}

#[test]
fn classes_alone_pair_no_brackets() {
    // The same types without characters: the closing bracket is a neutral
    // between L and the sequence end (R), so it takes the embedding level.
    let info = resolve_classes(&[Class::L, Class::ON, Class::L, Class::ON], Some(1));
    assert_eq!(info.levels, vec![2, 2, 2, 1]);
}

#[test]
fn isolate_content_forms_own_sequence() {
    // RLI ... PDI inside an LTR paragraph: the isolate content is raised
    // to level 1, the initiator and PDI stay at the paragraph level.
    let info = resolve("a\u{2067}\u{05D0}\u{2069}b", None);
    assert_eq!(info.paragraph_level, 0);
    assert_eq!(info.levels, vec![0, 0, 1, 0, 0]);
}

#[test]
fn classes_and_text_agree_without_brackets() {
    for s in ["abc", "\u{05D0}\u{05D1} 12 cd", "a\u{2067}\u{05D0}\u{2069}b", "x \u{0627}\u{0644} 3.5"] {
        let cls: Vec<Class> = s.chars().map(|c| uniworld::data::bidi_class::bidi_class(c as u32)).collect();
        for o in [None, Some(0), Some(1)] {
            let a = resolve(s, o);
            let b = resolve_classes(&cls, o);
            assert_eq!(a.paragraph_level, b.paragraph_level);
            assert_eq!(a.levels, b.levels);
            assert_eq!(a.reorder, b.reorder);
        }
    }
}

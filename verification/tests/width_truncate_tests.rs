use uniworld::truncate::{truncate_display_width, truncate_graphemes};
use uniworld::width::{char_width, display_width};

#[test]
fn truncate_by_graphemes() {
    let s = "a👩\u{200d}💻b";
    let t = truncate_graphemes(s, 2);
    assert!(t.starts_with('a'));
    assert!(!t.ends_with('b'));
}

#[test]
fn truncate_by_width_simple() {
    let s = "a一b";
    let t = truncate_display_width(s, 3);
    assert_eq!(t, "a一");
}

#[test]
fn width_ascii() {
    assert_eq!(display_width(""), 0);
    assert_eq!(display_width("abc"), 3);
}

#[test]
fn width_cjk() {
    let s = "a一b";
    assert_eq!(display_width(s), 1 + 2 + 1);
}

#[test]
fn width_combining() {
    let s = "e\u{0301}";
    assert_eq!(display_width(s), 1);
}

#[test]
fn width_cjk_ideographs() {
    assert_eq!(char_width('\u{4E00}'), 2);
    assert_eq!(char_width('\u{9FFF}'), 2);
    assert_eq!(display_width("\u{4F60}\u{597D}"), 4);
}

#[test]
fn width_hangul() {
    assert_eq!(char_width('\u{AC00}'), 2);
    assert_eq!(display_width("\u{D55C}\u{AE00}"), 4);
}

#[test]
fn width_katakana_fullwidth() {
    assert_eq!(char_width('\u{30A2}'), 2);
}

#[test]
fn width_combining_sequence() {
    let s = "e\u{0301}\u{0303}";
    assert_eq!(display_width(s), 1);
}

#[test]
fn width_zero_width_joiner() {
    assert_eq!(char_width('\u{200D}'), 0);
}

#[test]
fn width_mixed_script_string() {
    let s = "Hello\u{4E16}";
    assert_eq!(display_width(s), 7);
}

#[test]
fn width_empty_and_controls() {
    assert_eq!(display_width(""), 0);
    assert_eq!(display_width("\n"), 0);
    assert_eq!(display_width("\r\n"), 0);
    assert_eq!(display_width("\t"), 0);
}

#[test]
fn width_latin_with_diacritics() {
    assert_eq!(char_width('\u{00E9}'), 1);
    assert_eq!(display_width("e\u{0301}"), 1);
}

#[test]
fn truncate_graphemes_emoji_sequence() {
    let family = "\u{1F468}\u{200D}\u{1F469}\u{200D}\u{1F467}";
    let t = truncate_graphemes(family, 1);
    assert_eq!(t, family);
    assert_eq!(truncate_graphemes(family, 0), "");
}

#[test]
fn truncate_graphemes_devanagari() {
    let cluster = "\u{0915}\u{093F}";
    let s = format!("{}x", cluster);
    let t = truncate_graphemes(&s, 1);
    assert_eq!(t, cluster);
}

#[test]
fn truncate_width_cjk_boundary() {
    let s = "\u{4E00}\u{4E8C}\u{4E09}";
    let t = truncate_display_width(s, 4);
    assert_eq!(t, "\u{4E00}\u{4E8C}");
    let t2 = truncate_display_width(s, 3);
    assert_eq!(t2, "\u{4E00}");
}

#[test]
fn truncate_width_mixed_ascii_cjk() {
    let s = "ab\u{4E00}c";
    let t = truncate_display_width(s, 4);
    assert_eq!(t, "ab\u{4E00}");
    let t2 = truncate_display_width(s, 3);
    assert_eq!(t2, "ab");
}

#[test]
fn truncate_empty() {
    assert_eq!(truncate_graphemes("", 5), "");
    assert_eq!(truncate_display_width("", 5), "");
}

#[test]
fn truncate_no_truncation_needed() {
    let s = "hello";
    assert_eq!(truncate_graphemes(s, 100), s);
    assert_eq!(truncate_display_width(s, 100), s);
}

#[test]
fn truncate_regional_indicator_pair() {
    let flag = "\u{1F1FA}\u{1F1F8}";
    let s = format!("{}abc", flag);
    let t = truncate_graphemes(&s, 1);
    assert_eq!(t, flag);
}

#[test]
fn truncate_width_zero_budget() {
    assert_eq!(truncate_display_width("abc", 0), "");
    assert_eq!(truncate_display_width("\u{4E00}a", 1), "");
}

#[test]
fn truncate_width_keeps_combining_marks_with_base() {
    assert_eq!(truncate_display_width("e\u{0301}x", 1), "e\u{0301}");
}

#[test]
fn truncated_text_is_a_prefix_within_budget() {
    let s = "\u{4E00}a\u{0301}\u{1F1FA}\u{1F1F8}b";
    for w in 0..8u32 {
        let t = truncate_display_width(s, w);
        assert!(s.starts_with(t.as_str()));
        assert!(display_width(&t) <= w);
    }
    for k in 0..6usize {
        let t = truncate_graphemes(s, k);
        assert!(s.starts_with(t));
    }
}

#[test]
fn control_characters_have_no_width() {
    assert_eq!(char_width('\u{0007}'), 0);
    assert_eq!(char_width('\u{0085}'), 0);
    assert_eq!(char_width('\u{0008}'), 0);
    assert_eq!(char_width('a'), 1);
}

#[test]
fn truncation_ends_on_a_cluster_boundary() {
    let s = "e\u{0301}\u{4E2D}a\u{1F1EF}\u{1F1F5}";
    let starts = uniworld::segment::grapheme_boundaries(s);
    for w in 0..8u32 {
        let t = truncate_display_width(s, w);
        assert!(t.len() == s.len() || starts.contains(&t.len()));
    }
    for k in 0..6usize {
        let t = truncate_graphemes(s, k);
        assert!(t.len() == s.len() || starts.contains(&t.len()));
    }
    assert_eq!(truncate_display_width(s, 2), "e\u{0301}");
}

#[test]
fn try_display_width_matches_display_width() {
    for s in ["", "abc", "a\u{4E00}b", "e\u{0301}", "\u{1F600}x"] {
        assert_eq!(uniworld::width::try_display_width(s), Some(display_width(s)));
    }
    assert_eq!(uniworld::width::try_display_width("a\u{4E00}b"), Some(4));
}

use uniworld::segment::{grapheme_boundaries, grapheme_cluster_boundaries, sentence_boundaries, word_boundaries};

#[test]
fn grapheme_boundaries_empty() {
    let b = grapheme_boundaries("");
    assert!(b.is_empty());
}

#[test]
fn grapheme_boundaries_ascii() {
    let b = grapheme_boundaries("abc");
    assert_eq!(b, [0, 1, 2]);
}

#[test]
fn grapheme_cluster_boundaries_iterator() {
    let s = "ab";
    let mut it = grapheme_cluster_boundaries(s);
    let mut b: Vec<usize> = Vec::new();
    while let Some(off) = it.next() {
        b.push(off);
    }
    assert_eq!(b, [0, 1]);
}

#[test]
fn grapheme_base_plus_extend() {
    let s = "e\u{0301}";
    let b = grapheme_boundaries(s);
    assert_eq!(b, [0], "e + acute should be one cluster");
}

#[test]
fn grapheme_crlf() {
    let s = "a\r\nb";
    let b = grapheme_boundaries(s);
    assert_eq!(b, [0, 1, 3], "a, CRLF, b");
}

#[test]
fn grapheme_regional_indicator_pair() {
    let s = "\u{1F1E6}\u{1F1E8}";
    let b = grapheme_boundaries(s);
    assert_eq!(b, [0], "two RIs = one cluster");
}

#[test]
fn grapheme_four_regional_indicators() {
    let s = "\u{1F1E6}\u{1F1E8}\u{1F1E6}\u{1F1E8}";
    let b = grapheme_boundaries(s);
    assert_eq!(b, [0, 8], "four RIs = two clusters");
}

#[test]
fn word_boundaries_empty() {
    let b = word_boundaries("", None);
    assert_eq!(b, [0]);
}

#[test]
fn word_boundaries_hello_world() {
    let b = word_boundaries("hello world", None);
    assert_eq!(b, [0, 5, 6], "hello | space | world");
}

#[test]
fn word_boundaries_single_word() {
    let b = word_boundaries("hello", None);
    assert_eq!(b, [0]);
}

#[test]
fn sentence_boundaries_empty() {
    let b = sentence_boundaries("", None);
    assert_eq!(b, [0]);
}

#[test]
fn sentence_boundaries_single_sentence() {
    let b = sentence_boundaries("Hello world", None);
    assert_eq!(b, [0], "no sentence break without terminator");
}

#[test]
fn sentence_boundaries_period_uppercase() {
    let b = sentence_boundaries("Hello. World", None);
    assert_eq!(b, [0, 7], "Hello. | World");
}

#[test]
fn sentence_boundaries_abbreviation() {
    let b = sentence_boundaries("U.S.", None);
    assert_eq!(b, [0], "abbreviation should be one sentence");
}

#[test]
fn sentence_boundaries_crlf() {
    let b = sentence_boundaries("a.\r\nb", None);
    assert_eq!(b, [0, 4], "a.CRLF | b");
}

#[test]
fn sentence_boundaries_exclamation() {
    let b = sentence_boundaries("Wow! Great.", None);
    assert_eq!(b, [0, 5], "Wow! | Great.");
}

#[test]
fn grapheme_hangul_syllable_sequence() {
    // L V T jamo form one cluster; a following L starts a new one.
    let b = grapheme_boundaries("\u{1100}\u{1161}\u{11A8}\u{1100}");
    assert_eq!(b, [0, 9]);
}

#[test]
fn grapheme_three_regional_indicators() {
    let b = grapheme_boundaries("\u{1F1E6}\u{1F1E8}\u{1F1E6}");
    assert_eq!(b, [0, 8]);
}

#[test]
fn word_numbers_and_punctuation() {
    assert_eq!(word_boundaries("3.14 pi", None), [0, 4, 5]);
    assert_eq!(word_boundaries("can't stop", None), [0, 5, 6]);
}

#[test]
fn sentence_lowercase_after_period() {
    assert_eq!(sentence_boundaries("etc. and more", None), [0]);
    assert_eq!(sentence_boundaries("Is it? Yes.", None), [0, 7]);
}

#[test]
fn boundaries_are_increasing_and_start_at_zero() {
    let s = "Hello, world! 3.5 \u{05D0}\u{05D1} e\u{0301}x";
    for b in [grapheme_boundaries(s), word_boundaries(s, None), sentence_boundaries(s, None)] {
        assert_eq!(b[0], 0);
        for w in b.windows(2) {
            assert!(w[0] < w[1]);
        }
        for &x in &b {
            assert!(x < s.len());
            assert!(s.is_char_boundary(x));
        }
    }
}

#[test]
fn sentence_without_terminator_is_one_sentence() {
    assert_eq!(sentence_boundaries("abc def, ghi", None), vec![0]);
    assert_eq!(sentence_boundaries("abc def, ghi", Some("fr")), vec![0]);
}

#[test]
fn sentence_break_forced_after_paragraph_separator() {
    let s = "one\ntwo\u{2029}three";
    let b = sentence_boundaries(s, None);
    assert!(b.contains(&4));
    assert!(b.contains(&10));
    assert_eq!(b, sentence_boundaries(s, Some("de")));
}

#[test]
fn word_break_forced_at_newline() {
    let s = "ab\ncd\r\nef";
    let b = word_boundaries(s, None);
    assert!(b.contains(&2));
    assert!(b.contains(&3));
    assert!(b.contains(&5));
    assert!(b.contains(&7));
    assert!(!b.contains(&6));
    assert_eq!(b, word_boundaries(s, Some("ja")));
}

use uniworld::casemap::{
    case_fold, case_fold_locale, case_fold_simple, is_lowercase, is_uppercase, to_lowercase, to_lowercase_locale,
    to_titlecase, to_uppercase, to_uppercase_locale,
};

#[test]
fn lowercase_ascii() {
    assert_eq!(to_lowercase("HELLO WORLD"), "hello world");
    assert_eq!(to_lowercase("Hello World"), "hello world");
    assert_eq!(to_lowercase("hello"), "hello");
}

#[test]
fn lowercase_german_sharp_s() {
    assert_eq!(to_lowercase("\u{00DF}"), "\u{00DF}");
}

#[test]
fn lowercase_greek_final_sigma() {
    let upper = "\u{039F}\u{0394}\u{03A5}\u{03A3}\u{03A3}\u{0395}\u{03A5}\u{03A3}";
    let lower = to_lowercase(upper);
    assert!(lower.ends_with('\u{03C2}'), "final sigma at end");
    assert!(lower.contains('\u{03C3}'), "regular sigma in middle");
}

#[test]
fn lowercase_single_sigma() {
    assert_eq!(to_lowercase("\u{03A3}"), "\u{03C3}");
}

#[test]
fn uppercase_ascii() {
    assert_eq!(to_uppercase("hello world"), "HELLO WORLD");
    assert_eq!(to_uppercase("HELLO"), "HELLO");
}

#[test]
fn uppercase_german_sharp_s() {
    assert_eq!(to_uppercase("stra\u{00DF}e"), "STRASSE");
}

#[test]
fn uppercase_ligatures() {
    assert_eq!(to_uppercase("\u{FB00}"), "FF");
    assert_eq!(to_uppercase("\u{FB01}"), "FI");
}

#[test]
fn titlecase_basic() {
    assert_eq!(to_titlecase("hello world"), "Hello World");
    assert_eq!(to_titlecase("HELLO WORLD"), "Hello World");
}

#[test]
fn titlecase_mixed() {
    assert_eq!(to_titlecase("hELLO wORLD"), "Hello World");
}

#[test]
fn case_fold_basic() {
    assert_eq!(case_fold("Hello World"), "hello world");
    assert_eq!(case_fold("HELLO"), case_fold("hello"));
}

#[test]
fn case_fold_sharp_s() {
    assert_eq!(case_fold("\u{00DF}"), "ss");
    assert_eq!(case_fold("STRASSE"), case_fold("stra\u{00DF}e"));
}

#[test]
fn case_fold_simple_preserves_length() {
    let s = "Stra\u{00DF}e";
    let folded = case_fold_simple(s);
    assert_eq!(folded.chars().count(), s.chars().count());
}

#[test]
fn turkish_lowercase_i() {
    assert_eq!(to_lowercase_locale("I", "tr"), "\u{0131}");
}

#[test]
fn turkish_uppercase_i() {
    assert_eq!(to_uppercase_locale("i", "tr"), "\u{0130}");
}

#[test]
fn turkish_i_roundtrip() {
    let lower = to_lowercase_locale("I", "tr");
    assert_eq!(lower, "\u{0131}");
    let upper = to_uppercase(&lower);
    assert_eq!(upper, "I");
}

#[test]
fn classification_basic() {
    assert!(is_uppercase('A'));
    assert!(is_lowercase('a'));
    assert!(!is_uppercase('a'));
    assert!(!is_lowercase('A'));
    assert!(!is_uppercase('1'));
}

#[test]
fn empty_string() {
    assert_eq!(to_lowercase(""), "");
    assert_eq!(to_uppercase(""), "");
    assert_eq!(to_titlecase(""), "");
    assert_eq!(case_fold(""), "");
}

#[test]
fn no_case_characters() {
    assert_eq!(to_lowercase("12345"), "12345");
    assert_eq!(to_uppercase("12345"), "12345");
}

#[test]
fn turkish_dot_above_after_capital_i_is_dropped() {
    assert_eq!(to_lowercase_locale("I\u{0307}x", "tr"), "ix");
    assert_eq!(to_lowercase_locale("\u{0130}", "az"), "i");
}

#[test]
fn non_turkic_locale_is_default() {
    assert_eq!(to_lowercase_locale("I", "en"), "i");
    assert_eq!(to_uppercase_locale("i", "de"), "I");
    assert_eq!(case_fold_locale("I", "fr"), "i");
}

#[test]
fn sigma_before_letter_is_not_final() {
    assert_eq!(to_lowercase("\u{03A3}\u{0391}"), "\u{03C3}\u{03B1}");
    assert_eq!(to_lowercase("\u{0391}\u{03A3} \u{0391}"), "\u{03B1}\u{03C2} \u{03B1}");
}

#[test]
fn titlecase_keeps_leading_uncased() {
    assert_eq!(to_titlecase("1st place"), "1St Place");
    assert_eq!(to_titlecase("\u{01C6}ungla"), "\u{01C5}ungla");
}

#[test]
fn simple_fold_maps_each_character() {
    assert_eq!(case_fold_simple("ABC"), "abc");
    assert_eq!(case_fold_simple("\u{00DF}"), "\u{00DF}");
}

#[test]
fn lithuanian_lowercase_keeps_dot_above() {
    assert_eq!(to_lowercase_locale("I\u{0300}", "lt"), "i\u{0307}\u{0300}");
    assert_eq!(to_lowercase_locale("J\u{0301}", "lt"), "j\u{0307}\u{0301}");
    assert_eq!(to_lowercase_locale("\u{012E}\u{0303}", "lt"), "\u{012F}\u{0307}\u{0303}");
    assert_eq!(to_lowercase_locale("I\u{0316}\u{0300}", "lt"), "i\u{0307}\u{0316}\u{0300}");
    assert_eq!(to_lowercase_locale("\u{00CC}\u{00CD}\u{0128}", "lt"),
        "i\u{0307}\u{0300}i\u{0307}\u{0301}i\u{0307}\u{0303}");
    assert_eq!(to_lowercase_locale("IJ", "lt"), "ij");
    assert_eq!(to_lowercase_locale("I\u{0300}", "en"), "i\u{0300}");
    assert_eq!(to_lowercase("\u{00CC}"), "\u{00EC}");
}

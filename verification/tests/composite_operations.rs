use uniworld::casemap::{
    case_fold, case_fold_locale, case_fold_simple, is_lowercase, is_uppercase, to_lowercase, to_lowercase_locale,
    to_titlecase, to_uppercase, to_uppercase_locale,
};

#[test]
fn casemap_latin_extended() {
    assert_eq!(to_uppercase("\u{00DF}"), "SS");
    assert_eq!(to_lowercase("\u{0130}"), "i\u{0307}");
}

#[test]
fn casemap_greek_uppercase() {
    let lower = "\u{03B1}\u{03B2}\u{03B3}";
    let upper = to_uppercase(lower);
    assert_eq!(upper, "\u{0391}\u{0392}\u{0393}");
}

#[test]
fn casemap_cyrillic() {
    let lower = "\u{0430}\u{0431}\u{0432}";
    let upper = to_uppercase(lower);
    assert_eq!(upper, "\u{0410}\u{0411}\u{0412}");
    assert_eq!(to_lowercase(&upper), lower);
}

#[test]
fn casemap_turkish_roundtrip() {
    assert_eq!(to_uppercase_locale("i", "tr"), "\u{0130}");
    assert_eq!(to_lowercase_locale("I", "tr"), "\u{0131}");
    assert_eq!(to_uppercase_locale("i", "az"), "\u{0130}");
}

#[test]
fn casemap_titlecase_sentence() {
    assert_eq!(to_titlecase("the quick brown fox"), "The Quick Brown Fox");
}

#[test]
fn casemap_case_fold_comparison() {
    assert_eq!(case_fold("HELLO"), case_fold("hello"));
    assert_eq!(case_fold("Stra\u{00DF}e"), case_fold("STRASSE"));
}

#[test]
fn casemap_fold_locale_turkic() {
    let folded = case_fold_locale("I", "tr");
    assert_eq!(folded, "\u{0131}");
}

#[test]
fn casemap_fold_simple_no_expansion() {
    let s = "Stra\u{00DF}e";
    let f = case_fold_simple(s);
    assert_eq!(f.chars().count(), s.chars().count());
}

#[test]
fn casemap_classification() {
    assert!(is_uppercase('A'));
    assert!(is_uppercase('\u{0391}'));
    assert!(is_lowercase('a'));
    assert!(is_lowercase('\u{03B1}'));
    assert!(!is_uppercase('1'));
    assert!(!is_lowercase('!'));
}

#[test]
fn casemap_no_case_scripts() {
    let cjk = "\u{4E16}\u{754C}";
    assert_eq!(to_uppercase(cjk), cjk);
    assert_eq!(to_lowercase(cjk), cjk);
}

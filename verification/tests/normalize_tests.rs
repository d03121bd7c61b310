use uniworld::normalize::{nfc, nfd, nfkc, nfkd};

#[test]
fn nfd_decomposes_precomposed_letters() {
    assert_eq!(nfd("\u{00E9}"), "e\u{0301}");
    assert_eq!(nfd("abc"), "abc");
    assert_eq!(nfd(""), "");
}

#[test]
fn nfc_composes() {
    assert_eq!(nfc("e\u{0301}"), "\u{00E9}");
    assert_eq!(nfc("\u{00E9}"), "\u{00E9}");
}

#[test]
fn canonical_ordering_of_marks() {
    // dot below (ccc 220) sorts before dot above (ccc 230).
    assert_eq!(nfd("q\u{0307}\u{0323}"), "q\u{0323}\u{0307}");
    assert_eq!(nfc("q\u{0307}\u{0323}"), "q\u{0323}\u{0307}");
    assert_eq!(nfc("\u{1E0B}\u{0323}"), "\u{1E0D}\u{0307}");
}

#[test]
fn hangul_decomposes_and_composes() {
    assert_eq!(nfd("\u{AC01}"), "\u{1100}\u{1161}\u{11A8}");
    assert_eq!(nfc("\u{1100}\u{1161}\u{11A8}"), "\u{AC01}");
    assert_eq!(nfd("\u{AC00}"), "\u{1100}\u{1161}");
    assert_eq!(nfc("\u{1100}\u{1161}"), "\u{AC00}");
}

#[test]
fn compatibility_forms() {
    assert_eq!(nfkd("\u{FB01}"), "fi");
    assert_eq!(nfkc("\u{FB01}"), "fi");
    assert_eq!(nfkc("\u{2460}"), "1");
    assert_eq!(nfd("\u{FB01}"), "\u{FB01}");
}

#[test]
fn blocked_marks_do_not_compose() {
    // A second acute after an acute-composed letter stays separate.
    assert_eq!(nfc("e\u{0301}\u{0301}"), "\u{00E9}\u{0301}");
}

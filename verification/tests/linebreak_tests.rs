use uniworld::linebreak::dictionary::{
    language_for_codepoint, segment_words, word_boundaries_with_dictionary, DictLanguage, Dictionaries, Dictionary,
};
use uniworld::linebreak::{line_break_opportunities, line_break_opportunities_with_dictionary, BreakAction};

/// Dictionaries made from short excerpts of the word lists, holding the
/// words that the tests below use.
fn dicts() -> Dictionaries {
    Dictionaries {
        thai: Dictionary::from_data(
            "\u{0E01}\u{0E23}\n\u{0E04}\u{0E19}\n\u{0E44}\u{0E17}\u{0E22}\n\u{0E1B}\u{0E23}\u{0E30}\u{0E40}\u{0E17}\u{0E28}\n\u{0E2A}\u{0E27}\u{0E31}\u{0E2A}\u{0E14}\u{0E35}\n",
        ),
        lao: Dictionary::from_data("\u{0EAA}\u{0EB0}\u{0E9A}\u{0EB2}\u{0E8D}\u{0E94}\u{0EB5}\n"),
        khmer: Dictionary::from_data("\u{1797}\u{17B6}\u{179F}\u{17B6}\n"),
        myanmar: Dictionary::from_data("\u{1019}\u{103C}\u{1014}\u{103A}\u{1019}\u{102C}\n"),
    }
}

fn no_dicts() -> Dictionaries {
    Dictionaries {
        thai: Dictionary::from_data(""),
        lao: Dictionary::from_data(""),
        khmer: Dictionary::from_data(""),
        myanmar: Dictionary::from_data(""),
    }
}

#[test]
fn mod_test_empty() {
    let b = line_break_opportunities("");
    assert_eq!(b.len(), 1);
    assert_eq!(b[0], BreakAction::Mandatory);
}

#[test]
fn test_simple_ascii() {
    let text = "Hello World";
    let b = line_break_opportunities(text);
    assert_eq!(b[6], BreakAction::Allowed);
}

#[test]
fn test_mandatory_break() {
    let text = "A\nB";
    let b = line_break_opportunities(text);
    assert_eq!(b[2], BreakAction::Mandatory);
}

#[test]
fn test_crlf() {
    let text = "A\r\nB";
    let b = line_break_opportunities(text);
    assert_eq!(b[2], BreakAction::Prohibited);
    assert_eq!(b[3], BreakAction::Mandatory);
}

#[test]
fn test_language_for_codepoint() {
    assert_eq!(language_for_codepoint(0x0E01), Some(DictLanguage::Thai));
    assert_eq!(language_for_codepoint(0x0E44), Some(DictLanguage::Thai));
    assert_eq!(language_for_codepoint(0x0E81), Some(DictLanguage::Lao));
    assert_eq!(language_for_codepoint(0x1000), Some(DictLanguage::Myanmar));
    assert_eq!(language_for_codepoint(0x1780), Some(DictLanguage::Khmer));
    assert_eq!(language_for_codepoint(0x0041), None);
}

#[test]
fn test_segment_basic_thai() {
    let text = "\u{0E2A}\u{0E27}\u{0E31}\u{0E2A}\u{0E14}\u{0E35}";
    let _ = segment_words(text, DictLanguage::Thai, &dicts());
}

#[test]
fn thai_segment_known_phrase() {
    let text = "\u{0E2A}\u{0E27}\u{0E31}\u{0E2A}\u{0E14}\u{0E35}";
    let boundaries = segment_words(text, DictLanguage::Thai, &dicts());
    for &b in &boundaries {
        assert!(text.is_char_boundary(b), "boundary at {b} is not a char boundary");
        assert!(b > 0 && b < text.len(), "boundary {b} out of range");
    }
}

#[test]
fn thai_segment_longer_text() {
    let text = "\u{0E1B}\u{0E23}\u{0E30}\u{0E40}\u{0E17}\u{0E28}\u{0E44}\u{0E17}\u{0E22}";
    let boundaries = segment_words(text, DictLanguage::Thai, &dicts());
    for &b in &boundaries {
        assert!(text.is_char_boundary(b));
    }
}

#[test]
fn thai_dictionary_line_breaks() {
    let text = "\u{0E04}\u{0E19}\u{0E44}\u{0E17}\u{0E22}";
    let _breaks_no_dict = line_break_opportunities(text);
    let breaks_dict = line_break_opportunities_with_dictionary(text, &dicts());
    let boundary_byte = 6;
    assert_eq!(
        breaks_dict[boundary_byte],
        BreakAction::Allowed,
        "Expected Allowed break between Thai words with dictionary"
    );
}

#[test]
fn lao_segment_basic() {
    let text = "\u{0EAA}\u{0EB0}\u{0E9A}\u{0EB2}\u{0E8D}\u{0E94}\u{0EB5}";
    let boundaries = segment_words(text, DictLanguage::Lao, &dicts());
    for &b in &boundaries {
        assert!(text.is_char_boundary(b));
    }
}

#[test]
fn lao_language_detection() {
    assert_eq!(language_for_codepoint(0x0E81), Some(DictLanguage::Lao));
    assert_eq!(language_for_codepoint(0x0EAA), Some(DictLanguage::Lao));
}

#[test]
fn khmer_segment_basic() {
    let text = "\u{1797}\u{17B6}\u{179F}\u{17B6}";
    let boundaries = segment_words(text, DictLanguage::Khmer, &dicts());
    for &b in &boundaries {
        assert!(text.is_char_boundary(b));
    }
}

#[test]
fn khmer_language_detection() {
    assert_eq!(language_for_codepoint(0x1780), Some(DictLanguage::Khmer));
    assert_eq!(language_for_codepoint(0x1797), Some(DictLanguage::Khmer));
}

#[test]
fn myanmar_segment_basic() {
    let text = "\u{1019}\u{103C}\u{1014}\u{103A}\u{1019}\u{102C}";
    let boundaries = segment_words(text, DictLanguage::Myanmar, &dicts());
    for &b in &boundaries {
        assert!(text.is_char_boundary(b));
    }
}

#[test]
fn myanmar_language_detection() {
    assert_eq!(language_for_codepoint(0x1000), Some(DictLanguage::Myanmar));
    assert_eq!(language_for_codepoint(0x1019), Some(DictLanguage::Myanmar));
}

#[test]
fn mixed_thai_latin() {
    let text = "Hello \u{0E2A}\u{0E27}\u{0E31}\u{0E2A}\u{0E14}\u{0E35} World";
    let breaks = line_break_opportunities_with_dictionary(text, &dicts());
    let space1 = 5;
    assert_eq!(breaks[space1 + 1], BreakAction::Allowed, "Expected break opportunity after 'Hello '");
}

#[test]
fn non_sa_text_unchanged() {
    let text = "Hello World";
    let breaks_no_dict = line_break_opportunities(text);
    let breaks_dict = line_break_opportunities_with_dictionary(text, &dicts());
    assert_eq!(breaks_no_dict, breaks_dict);
}

#[test]
fn empty_text() {
    let breaks = line_break_opportunities_with_dictionary("", &dicts());
    assert_eq!(breaks.len(), 1);
}

#[test]
fn single_thai_char() {
    let text = "\u{0E01}";
    let breaks = line_break_opportunities_with_dictionary(text, &dicts());
    assert_eq!(breaks.len(), text.len() + 1);
}

#[test]
fn breaks_inside_characters_are_prohibited() {
    let text = "\u{4E00}\u{4E8C}";
    let b = line_break_opportunities(text);
    assert_eq!(b.len(), 7);
    assert_eq!(b[0], BreakAction::Prohibited);
    assert_eq!(b[1], BreakAction::Prohibited);
    assert_eq!(b[2], BreakAction::Prohibited);
    assert_eq!(b[3], BreakAction::Allowed);
    assert_eq!(b[6], BreakAction::Mandatory);
}

#[test]
fn no_break_before_closing_punctuation_or_inside_numbers() {
    let b = line_break_opportunities("(a) 1,000.5 x");
    assert_eq!(b[1], BreakAction::Prohibited);
    assert_eq!(b[2], BreakAction::Prohibited);
    assert_eq!(b[4], BreakAction::Allowed);
    assert_eq!(b[5], BreakAction::Prohibited);
    assert_eq!(b[6], BreakAction::Prohibited);
    assert_eq!(b[9], BreakAction::Prohibited);
    assert_eq!(b[12], BreakAction::Allowed);
}

#[test]
fn zero_width_space_allows_a_break() {
    let b = line_break_opportunities("a\u{200B}b");
    assert_eq!(b[1], BreakAction::Prohibited);
    assert_eq!(b[4], BreakAction::Allowed);
}

#[test]
fn word_joiner_and_glue_prohibit() {
    let b = line_break_opportunities("a\u{2060}b");
    assert_eq!(b[1], BreakAction::Prohibited);
    assert_eq!(b[4], BreakAction::Prohibited);
    let g = line_break_opportunities("a\u{00A0}b");
    assert_eq!(g[1], BreakAction::Prohibited);
    assert_eq!(g[3], BreakAction::Prohibited);
}

#[test]
fn empty_dictionary_splits_sa_runs_per_character() {
    let text = "\u{0E04}\u{0E19}\u{0E44}";
    assert_eq!(segment_words(text, DictLanguage::Thai, &no_dicts()), vec![3, 6]);
    assert_eq!(segment_words(text, DictLanguage::Thai, &dicts()), vec![6]);
}

#[test]
fn dictionary_word_boundaries_merge_runs() {
    assert_eq!(word_boundaries_with_dictionary("ab \u{0E04}\u{0E19}", &no_dicts()), vec![0, 2, 3, 6]);
    assert_eq!(word_boundaries_with_dictionary("ab \u{0E04}\u{0E19}", &dicts()), vec![0, 2, 3]);
    assert_eq!(word_boundaries_with_dictionary("\u{0E04}\u{0E19}\u{0E44}\u{0E17}\u{0E22}", &dicts()), vec![0, 6]);
    assert_eq!(word_boundaries_with_dictionary("", &dicts()), vec![0]);
    assert_eq!(word_boundaries_with_dictionary("hello world", &dicts()), vec![0, 5, 6]);
}

#[test]
fn dictionary_from_word_list() {
    let d = Dictionary::from_data(" foo \n\n\tbar\r\n\u{0E04}\u{0E19}\n  \n");
    assert!(d.contains("foo"));
    assert!(d.contains("bar"));
    assert!(d.contains("\u{0E04}\u{0E19}"));
    assert!(!d.contains(" foo"));
    assert!(!d.contains(""));
    assert!(!d.contains("ba"));
    assert_eq!(d.max_word_len(), 6);
    let empty = Dictionary::from_data("");
    assert!(!empty.contains("foo"));
    assert_eq!(empty.max_word_len(), 0);
}

#[test]
fn thai_segment_multi_word() {
    let text = "\u{0E04}\u{0E19}\u{0E44}\u{0E17}\u{0E22}";
    let boundaries = segment_words(text, DictLanguage::Thai, &dicts());
    assert!(!boundaries.is_empty(), "Expected at least one word boundary in 'khon thai'");
    assert_eq!(boundaries[0], 6, "Expected boundary after first word");
}

#[test]
fn thai_no_break_within_word() {
    let text = "\u{0E1B}\u{0E23}\u{0E30}\u{0E40}\u{0E17}\u{0E28}";
    let breaks = line_break_opportunities_with_dictionary(text, &dicts());
    let char_positions: Vec<usize> = text.char_indices().map(|(i, _)| i).collect();
    for &pos in &char_positions[1..] {
        if pos < text.len() {
            assert_ne!(breaks[pos], BreakAction::Allowed, "Unexpected break within Thai word at byte {pos}");
        }
    }
}

#[test]
fn dictionary_lookup_by_language() {
    let d = dicts();
    assert!(d.get_dict(DictLanguage::Thai).contains("\u{0E01}\u{0E23}"));
    assert_eq!(d.get_dict(DictLanguage::Thai).word_count(), 5);
    assert!(d.get_dict(DictLanguage::Lao).contains("\u{0EAA}\u{0EB0}\u{0E9A}\u{0EB2}\u{0E8D}\u{0E94}\u{0EB5}"));
    assert!(!d.get_dict(DictLanguage::Lao).contains("\u{0E01}\u{0E23}"));
    assert_eq!(d.get_dict(DictLanguage::Khmer).word_count(), 1);
    assert_eq!(d.get_dict(DictLanguage::Myanmar).max_word_len(), 18);
}

#[test]
fn dictionary_keeps_sa_words_whole_in_line_breaks() {
    // Without word lists every character of the run may break; with them
    // only the word starts do.
    let text = "\u{0E04}\u{0E19}\u{0E44}\u{0E17}\u{0E22}";
    let plain = line_break_opportunities_with_dictionary(text, &no_dicts());
    assert_eq!(plain[3], BreakAction::Allowed);
    let b = line_break_opportunities_with_dictionary(text, &dicts());
    assert_eq!(b[3], BreakAction::Prohibited);
    assert_eq!(b[6], BreakAction::Allowed);
    assert_eq!(b[9], BreakAction::Prohibited);
    assert_eq!(b[15], BreakAction::Mandatory);
}

#[test]
fn dictionary_word_listed_twice_counts_once() {
    let d = Dictionary::from_data("b\na\nb\n  a \nc\n");
    assert_eq!(d.word_count(), 3);
    assert!(d.contains("a"));
    assert!(d.contains("b"));
    assert!(d.contains("c"));
    assert!(!d.contains("d"));
    assert!(!d.contains("ab"));
}

#[test]
fn dictionary_pass_keeps_mandatory_breaks() {
    let text = "\u{0E04}\u{0E19}\n\u{0E44}\u{0E17}\u{0E22}\r\nxy";
    let base = line_break_opportunities(text);
    let with = line_break_opportunities_with_dictionary(text, &dicts());
    assert_eq!(base.len(), with.len());
    for k in 0..base.len() {
        assert_eq!(base[k] == BreakAction::Mandatory, with[k] == BreakAction::Mandatory);
    }
}

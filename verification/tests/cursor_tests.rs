use uniworld::cursor::{
    delete_backward, delete_forward, move_left, move_left_visual, move_left_visual_indexed, move_right,
    move_right_visual, move_right_visual_indexed, select_word, visual_cursor_stops,
};

#[test]
fn move_across_ascii() {
    let s = "hello";
    assert_eq!(move_right(s, 0), 1);
    assert_eq!(move_right(s, 1), 2);
    assert_eq!(move_left(s, 5), 4);
    assert_eq!(move_left(s, 1), 0);
}

#[test]
fn move_across_emoji_cluster() {
    let s = "x👨\u{200d}👩\u{200d}👧\u{200d}👦y";
    let emoji_start = "x".len();
    let y_start = emoji_start + "👨\u{200d}👩\u{200d}👧\u{200d}👦".len();
    let after_emoji = move_right(s, emoji_start);
    assert_eq!(after_emoji, y_start, "move_right should land at 'y'");
    assert_eq!(move_left(s, y_start), emoji_start);
}

#[test]
fn delete_backward_basic() {
    let s = "hello";
    let (t, pos) = delete_backward(s, 5);
    assert_eq!(t, "hell");
    assert_eq!(pos, 4);
}

#[test]
fn delete_forward_basic() {
    let s = "hello";
    let (t, pos) = delete_forward(s, 0);
    assert_eq!(t, "ello");
    assert_eq!(pos, 0);
}

#[test]
fn select_word_ascii() {
    let s = "hello world";
    let (start, end) = select_word(s, 1);
    assert_eq!(&s[start..end], "hello");
    let (start2, end2) = select_word(s, 8);
    assert_eq!(&s[start2..end2], "world");
}

#[test]
fn visual_move_pure_ltr() {
    let s = "abc";
    assert_eq!(move_right_visual(s, 0), 1);
    assert_eq!(move_right_visual(s, 1), 2);
    assert_eq!(move_right_visual(s, 2), 3);
    assert_eq!(move_left_visual(s, 3), 2);
    assert_eq!(move_left_visual(s, 1), 0);
}

#[test]
fn visual_move_pure_rtl() {
    let s = "\u{05D0}\u{05D1}\u{05D2}";
    let right1 = move_right_visual(s, 0);
    assert!(right1 <= s.len());
}

#[test]
fn visual_move_empty() {
    assert_eq!(move_right_visual("", 0), 0);
    assert_eq!(move_left_visual("", 0), 0);
}

#[test]
fn visual_move_at_boundaries() {
    let s = "hello";
    assert_eq!(move_right_visual(s, s.len()), s.len());
    assert_eq!(move_left_visual(s, 0), 0);
}

fn run_bidi_diagnostic(s: &str) {
    let stops = visual_cursor_stops(s);
    println!("stops of {:?}: {:?}", s, stops);
    let mut seen: Vec<usize> = Vec::new();
    for &b in &stops {
        assert!(!seen.contains(&b), "Duplicate byte offset {} found in stop list", b);
        seen.push(b);
    }
    let mut pos = stops[0];
    let mut hint = 0usize;
    for _ in 0..stops.len() + 2 {
        let (new_pos, new_hint) = move_right_visual_indexed(s, pos, hint);
        if new_pos == pos && new_hint == hint {
            break;
        }
        pos = new_pos;
        hint = new_hint;
    }
    pos = *stops.last().unwrap();
    hint = stops.len() - 1;
    for _ in 0..stops.len() + 2 {
        let (new_pos, new_hint) = move_left_visual_indexed(s, pos, hint);
        if new_pos == pos && new_hint == hint {
            break;
        }
        pos = new_pos;
        hint = new_hint;
    }
}

#[test]
fn diagnostic_bidi_stops() {
    let s = "\u{062B}\u{0645}\u{0646}: 42 \u{062F}\u{0648}\u{0644}\u{0627}\u{0631}";
    println!("\n====== TEST 1: RTL paragraph with LTR digits ======");
    run_bidi_diagnostic(s);
    let s2 = "Hi \u{0645}\u{0631}\u{062D}\u{0628}\u{0627} Ok";
    println!("\n====== TEST 2: LTR paragraph with RTL ======");
    run_bidi_diagnostic(s2);
}

#[test]
fn cursor_devanagari_cluster() {
    let s = "\u{0915}\u{093F}";
    assert_eq!(move_right(s, 0), s.len());
    assert_eq!(move_left(s, s.len()), 0);
}

#[test]
fn cursor_thai_text() {
    let s = "\u{0E2A}\u{0E27}\u{0E31}\u{0E2A}\u{0E14}\u{0E35}";
    let pos = move_right(s, 0);
    assert!(pos > 0);
    assert!(s.is_char_boundary(pos));
}

#[test]
fn cursor_emoji_flag_sequence() {
    let s = "\u{1F1FA}\u{1F1F8}";
    assert_eq!(move_right(s, 0), s.len());
    assert_eq!(move_left(s, s.len()), 0);
}

#[test]
fn cursor_emoji_skin_tone() {
    let wave = "\u{1F44B}\u{1F3FD}";
    assert_eq!(move_right(wave, 0), wave.len());
    assert_eq!(move_left(wave, wave.len()), 0);
}

#[test]
fn cursor_mixed_script_word_select() {
    let s = "hello \u{4F60}\u{597D}";
    let (start, end) = select_word(s, 2);
    assert_eq!(&s[start..end], "hello");
}

#[test]
fn cursor_delete_backward_multibyte() {
    let s = "a\u{4E16}\u{754C}b";
    let cjk_end = "a\u{4E16}\u{754C}".len();
    let (result, pos) = delete_backward(s, cjk_end);
    assert_eq!(result, "a\u{4E16}b");
    assert_eq!(pos, "a\u{4E16}".len());
}

#[test]
fn cursor_delete_forward_emoji() {
    let s = "x\u{1F600}y";
    let (result, pos) = delete_forward(s, 1);
    assert_eq!(result, "xy");
    assert_eq!(pos, 1);
}

#[test]
fn visual_cursor_ltr_paragraph() {
    let s = "abc";
    assert_eq!(move_right_visual(s, 0), move_right(s, 0));
    assert_eq!(move_left_visual(s, 3), move_left(s, 3));
}

#[test]
fn visual_cursor_single_rtl_char() {
    let s = "\u{05D0}";
    assert_eq!(move_right_visual(s, 0), 0);
    assert_eq!(move_left_visual(s, 0), s.len());
    assert_eq!(move_right_visual(s, s.len()), 0);
    assert_eq!(move_left_visual(s, s.len()), s.len());
}

#[test]
fn cursor_moves_clamp_at_the_ends() {
    assert_eq!(move_right("", 3), 0);
    assert_eq!(move_right("ab", 7), 2);
    assert_eq!(move_left("ab", 0), 0);
    assert_eq!(move_left("", 0), 0);
}

#[test]
fn delete_at_the_ends_changes_nothing() {
    assert_eq!(delete_backward("abc", 0), ("abc".to_string(), 0));
    assert_eq!(delete_forward("abc", 3), ("abc".to_string(), 3));
    assert_eq!(delete_backward("", 0), (String::new(), 0));
}

#[test]
fn select_word_edges() {
    let s = "hello world";
    assert_eq!(select_word(s, 11), (11, 11));
    assert_eq!(select_word(s, 5), (5, 6));
    assert_eq!(select_word(s, 20), (20, 20));
    assert_eq!(select_word("", 0), (0, 0));
}

#[test]
fn visual_stops_of_mixed_text() {
    let stops = visual_cursor_stops("ab\u{05D0}\u{05D1}");
    assert_eq!(stops, vec![0, 1, 2, 6, 4]);
    assert_eq!(visual_cursor_stops(""), vec![0]);
}

#[test]
fn visual_stops_have_no_repeats() {
    for text in ["ab\u{05D0}\u{05D1}", "\u{05D0} a b \u{05D1}", "x\u{05D0}1 2\u{05D1}y", "abc"] {
        let stops = visual_cursor_stops(text);
        let mut sorted = stops.clone();
        sorted.sort();
        sorted.dedup();
        assert_eq!(sorted.len(), stops.len());
    }
}

#[test]
fn select_word_in_white_space_only_text() {
    assert_eq!(select_word("   ", 1), (1, 1));
    assert_eq!(select_word("\t \n", 0), (0, 0));
    assert_eq!(select_word(" a ", 1), (1, 2));
}

#[test]
fn indexed_visual_moves_undo_each_other() {
    let text = "ab\u{05D0}\u{05D1} cd";
    let stops = visual_cursor_stops(text);
    for (h, &c) in stops.iter().enumerate() {
        let (p, k) = move_right_visual_indexed(text, c, h);
        let (q, j) = move_left_visual_indexed(text, p, k);
        if j < k {
            assert_eq!(j, k - 1);
            assert_eq!(move_right_visual_indexed(text, q, j), (p, k));
        }
    }
}

#[test]
fn ltr_visual_moves_match_logical_moves() {
    let text = "he\u{0301}llo w\u{00F6}rld \u{1F1EF}\u{1F1F5}";
    let mut bounds = uniworld::segment::grapheme_boundaries(text);
    bounds.push(text.len());
    for &c in &bounds {
        assert_eq!(move_right_visual(text, c), move_right(text, c));
        assert_eq!(move_left_visual(text, c), move_left(text, c));
    }
}

#[test]
fn move_right_then_left_returns_to_boundary() {
    let s = "e\u{0301}x\u{1F600}\r\nz";
    let mut b = 0;
    while b < s.len() {
        let r = move_right(s, b);
        assert!(r > b);
        assert_eq!(move_left(s, r), b);
        assert_eq!(move_right(s, move_left(s, r)), r);
        b = r;
    }
}

#[test]
fn visual_moves_follow_logical_on_ltr_line() {
    let s = "ab\u{0301}c";
    for b in [0usize, 1, 4] {
        assert_eq!(move_right_visual(s, b), move_right(s, b));
    }
    for b in [1usize, 4, 5] {
        assert_eq!(move_left_visual(s, b), move_left(s, b));
    }
}

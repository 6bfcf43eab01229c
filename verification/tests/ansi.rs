use lz::ansi::{
    escape_seq_len, is_sgr_reset, is_sgr_sequence, strip_ansi, truncate_to_width, visible_width,
};

fn chars(s: &str) -> Vec<char> {
    s.chars().collect()
}


// --- strip_ansi ---

#[test]
fn strip_plain_text() {
    assert_eq!(strip_ansi("hello world"), "hello world");
}

#[test]
fn strip_empty() {
    assert_eq!(strip_ansi(""), "");
}

#[test]
fn strip_sgr_color() {
    assert_eq!(strip_ansi("\x1b[31mred\x1b[0m"), "red");
}

#[test]
fn strip_multiple_sgr() {
    assert_eq!(
        strip_ansi("\x1b[1m\x1b[32mbold green\x1b[m normal"),
        "bold green normal"
    );
}

#[test]
fn strip_256_color() {
    assert_eq!(strip_ansi("\x1b[38;5;196mred\x1b[m"), "red");
}

#[test]
fn strip_truecolor() {
    assert_eq!(strip_ansi("\x1b[38;2;255;0;0mred\x1b[m"), "red");
}

#[test]
fn strip_csi_cursor_movement() {
    assert_eq!(strip_ansi("\x1b[2Jhello\x1b[10;1H"), "hello");
}

#[test]
fn strip_osc_sequence_bel() {
    assert_eq!(strip_ansi("\x1b]0;title\x07text"), "text");
}

#[test]
fn strip_osc_sequence_st() {
    assert_eq!(strip_ansi("\x1b]0;title\x1b\\text"), "text");
}

#[test]
fn strip_preserves_utf8() {
    assert_eq!(strip_ansi("\x1b[31m日本語\x1b[m"), "日本語");
}

#[test]
fn strip_bare_escape_at_end() {
    assert_eq!(strip_ansi("text\x1b"), "text");
}

#[test]
fn strip_unterminated_csi() {
    // ESC [ followed by no final byte — consumed as incomplete sequence
    assert_eq!(strip_ansi("\x1b[31"), "");
}

// --- visible_width ---

#[test]
fn width_plain_ascii() {
    assert_eq!(visible_width("hello"), 5);
}

#[test]
fn width_empty() {
    assert_eq!(visible_width(""), 0);
}

#[test]
fn width_with_ansi() {
    assert_eq!(visible_width("\x1b[31mhello\x1b[m"), 5);
}

#[test]
fn width_cjk_characters() {
    // Each CJK char is 2 columns wide
    assert_eq!(visible_width("日本"), 4);
}

#[test]
fn width_mixed_cjk_and_ascii() {
    assert_eq!(visible_width("hi日本"), 6);
}

#[test]
fn width_colored_cjk() {
    assert_eq!(visible_width("\x1b[32m日本\x1b[m"), 4);
}

// --- truncate_to_width ---

#[test]
fn truncate_plain_fits() {
    assert_eq!(truncate_to_width("hello", 0, 10, false), "hello");
}

#[test]
fn truncate_plain_clips() {
    assert_eq!(truncate_to_width("hello world", 0, 5, false), "hello");
}

#[test]
fn truncate_with_offset() {
    assert_eq!(truncate_to_width("hello world", 6, 5, false), "world");
}

#[test]
fn truncate_offset_beyond_content() {
    assert_eq!(truncate_to_width("hi", 10, 5, false), "");
}

#[test]
fn truncate_preserves_color() {
    let result = truncate_to_width("\x1b[31mred text\x1b[m", 0, 8, false);
    assert!(result.starts_with("\x1b[31m"));
    assert!(result.contains("red text"));
    assert!(result.ends_with("\x1b[m"));
}

#[test]
fn truncate_color_replayed_after_offset() {
    // Color set before offset should still be active at start of visible region
    let result = truncate_to_width("\x1b[31mred text\x1b[m", 4, 4, false);
    assert!(result.starts_with("\x1b[31m"));
    assert!(result.contains("text"));
    assert!(result.ends_with("\x1b[m"));
}

#[test]
fn truncate_color_reset_before_offset_clears() {
    // Color set then reset before offset — no color replayed
    let result = truncate_to_width("\x1b[31mred\x1b[m plain", 4, 5, false);
    assert!(!result.contains("\x1b[31m"));
    assert!(result.contains("plain"));
}

#[test]
fn truncate_tab_expansion() {
    let result = truncate_to_width("\thi", 0, 10, false);
    // Tab at col 0 expands to 8 spaces
    assert_eq!(&result[..8], "        ");
    assert!(result.contains("hi"));
}

#[test]
fn truncate_empty() {
    assert_eq!(truncate_to_width("", 0, 80, false), "");
}

#[test]
fn truncate_zero_width() {
    assert_eq!(truncate_to_width("hello", 0, 0, false), "");
}

#[test]
fn truncate_cjk_at_boundary() {
    // Wide char that would straddle the max_width boundary gets replaced with space
    // "日" is 2 cols wide. With max_width=3, "日X" (4 cols) → "日 " (3 cols)
    let result = truncate_to_width("日X", 0, 3, false);
    assert_eq!(visible_width(&strip_ansi(&result)), 3);
}

#[test]
fn truncate_cjk_straddling_offset() {
    // Wide char at col 0-1, start_col=1 → partial wide char → space
    let result = truncate_to_width("日b", 1, 3, false);
    assert!(result.starts_with(' '));
}

// --- raw mode truncation ---

#[test]
fn truncate_raw_shows_escapes() {
    let result = truncate_to_width("\x1b[31mhi", 0, 20, true);
    // In raw mode, the escape chars are visible, not stripped.
    // The ESC byte is present and the full string is output literally.
    assert_eq!(result, "\x1b[31mhi");
    // The visible width counts ESC and control chars, so it's wider than in normal mode
    assert!(result.len() > "hi".len());
}

#[test]
fn truncate_raw_offset() {
    let result = truncate_to_width("abcdef", 2, 3, true);
    assert_eq!(result, "cde");
}

// --- is_sgr helpers ---

#[test]
fn sgr_detection() {
    assert!(is_sgr_sequence("\x1b[31m"));
    assert!(is_sgr_sequence("\x1b[0m"));
    assert!(is_sgr_sequence("\x1b[38;5;196m"));
    assert!(!is_sgr_sequence("\x1b[2J")); // clear screen, not SGR
    assert!(!is_sgr_sequence("\x1b[H"));  // cursor, not SGR
}

#[test]
fn sgr_reset_detection() {
    assert!(is_sgr_reset("\x1b[m"));
    assert!(is_sgr_reset("\x1b[0m"));
    assert!(!is_sgr_reset("\x1b[31m"));
}

// --- escape sequences ---

#[test]
fn escape_lengths() {
    assert_eq!(escape_seq_len(&chars("a"), 0), 0);
    assert_eq!(escape_seq_len(&chars("a\x1b"), 1), 1);
    assert_eq!(escape_seq_len(&chars("\x1b[31mred"), 0), 5);
    assert_eq!(escape_seq_len(&chars("\x1b[31"), 0), 4);
    assert_eq!(escape_seq_len(&chars("\x1b]0;t\x07x"), 0), 6);
    assert_eq!(escape_seq_len(&chars("\x1b]0;t\x1b\\x"), 0), 7);
    assert_eq!(escape_seq_len(&chars("\x1b]0;t"), 0), 5);
    assert_eq!(escape_seq_len(&chars("\x1b(Bx"), 0), 3);
    assert_eq!(escape_seq_len(&chars("\x1b("), 0), 2);
    assert_eq!(escape_seq_len(&chars("\x1bcx"), 0), 2);
}

#[test]
fn strip_two_and_three_character_escapes() {
    assert_eq!(strip_ansi("a\x1b(Bb\x1bcc"), "abc");
}

#[test]
fn strip_escape_before_wide_character() {
    assert_eq!(strip_ansi("\x1b日x"), "x");
}

#[test]
fn strip_twice_is_strip_once() {
    let once = strip_ansi("a\x1b[1mb\x1b]0;t\x07c\x1b");
    assert_eq!(once, "abc");
    assert_eq!(strip_ansi(&once), once);
}

#[test]
fn width_ignores_controls_and_combining_marks() {
    assert_eq!(visible_width("a\u{7}b\tc"), 3);
    assert_eq!(visible_width("e\u{301}"), 1);
}

// --- truncation ---

#[test]
fn truncate_exact_colors() {
    assert_eq!(
        truncate_to_width("\x1b[31mred text\x1b[m", 4, 4, false),
        "\x1b[31mtext\x1b[m"
    );
    assert_eq!(
        truncate_to_width("\x1b[1m\x1b[31mabc", 1, 9, false),
        "\x1b[1m\x1b[31mbc\x1b[m"
    );
}

#[test]
fn truncate_resets_color_set_on_the_way() {
    assert_eq!(truncate_to_width("a\x1b[31mbcd", 0, 2, false), "a\x1b[31mb\x1b[m");
    assert_eq!(truncate_to_width("a\x1b[31mbcd", 0, 9, false), "a\x1b[31mbcd\x1b[m");
    // What is reset in between needs no more.
    assert_eq!(
        truncate_to_width("a\x1b[31mb\x1b[0mcd", 0, 3, false),
        "a\x1b[31mb\x1b[0mc"
    );
    // A colour that comes after the last column is not shown.
    assert_eq!(truncate_to_width("ab\x1b[31mcd", 0, 2, false), "ab");
    // A style that was replayed is reset again at the end.
    assert_eq!(
        truncate_to_width("\x1b[1mab\x1b[mcd", 1, 2, false),
        "\x1b[1mb\x1b[mc\x1b[m"
    );
    // Other sequences set no style.
    assert_eq!(truncate_to_width("a\x1b[Kbcd", 0, 2, false), "a\x1b[Kb");
}

#[test]
fn truncate_overflowing_wide_character_becomes_space() {
    assert_eq!(truncate_to_width("a日b", 0, 2, false), "a ");
    assert_eq!(truncate_to_width("a日b", 0, 2, true), "a");
}

#[test]
fn truncate_tab_across_offset() {
    assert_eq!(truncate_to_width("a\tb", 4, 10, false), "    b");
    assert_eq!(truncate_to_width("a\tb", 4, 10, true), "    b");
    // Such a tab is cut where the screen ends.
    assert_eq!(truncate_to_width("\tb", 1, 3, false), "   ");
    assert_eq!(truncate_to_width("\tb", 1, 3, true), "   ");
}

#[test]
fn truncated_line_fits() {
    let line = "\x1b[32ma日\tb\x1b[0mcd本e";
    for start in 0..16 {
        for max in 0..20 {
            let cut = truncate_to_width(line, start, max, false);
            assert!(visible_width(&cut) <= max);
        }
    }
}

#[test]
fn truncated_raw_line_fits() {
    let line = "\x1b[32ma日\tb\u{7}cd本e";
    for start in 0..20 {
        for max in 0..20 {
            let cut = truncate_to_width(line, start, max, true);
            let controls = cut.chars().filter(|c| c.is_control()).count();
            let rest: String = cut.chars().filter(|c| !c.is_control()).collect();
            assert!(visible_width(&rest) + controls <= max);
        }
    }
}

#[test]
fn widths_of_parts_add_up() {
    let (a, b) = ("\x1b[32m日\x1b[m x", "本\x1b]0;t\x07y");
    let both = format!("{}{}", a, b);
    assert_eq!(visible_width(&both), visible_width(a) + visible_width(b));
    assert_eq!(strip_ansi(&both), format!("{}{}", strip_ansi(a), strip_ansi(b)));
    assert_eq!(visible_width(&strip_ansi(&both)), visible_width(&both));
    assert_eq!(visible_width(&both), 7);
}

#[test]
fn truncate_raw_counts_controls() {
    assert_eq!(truncate_to_width("\x1b[31mhi", 0, 3, true), "\x1b[3");
    assert_eq!(truncate_to_width("\x1b[31mhi", 5, 3, true), "hi");
}

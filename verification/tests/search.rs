use lz::bmh::Bmh;
use lz::buffer::{LineBuffer, ReadOutcome, ShownLines};
use lz::regexp::Compiled;
use lz::search::{expression_text, is_literal, line_to_read, Matcher, Search};

fn make_buffer(lines: &[&str]) -> LineBuffer {
    LineBuffer::from_lines(lines.iter().map(|s| s.to_string()).collect())
}

// --- is_literal ---

#[test]
fn literal_detection() {
    assert!(is_literal("hello"));
    assert!(is_literal("0500000"));
    assert!(is_literal("foo bar"));
    assert!(!is_literal("foo.bar"));
    assert!(!is_literal("foo*"));
    assert!(!is_literal("^start"));
    assert!(!is_literal("end$"));
    assert!(!is_literal("[abc]"));
    assert!(!is_literal("a|b"));
    assert!(!is_literal("foo\\d"));
}

// --- Bmh ---

#[test]
fn bmh_basic_find() {
    let bmh = Bmh::new(b"fox", false);
    assert_eq!(bmh.find_from(b"the quick brown fox", 0), Some(16));
}

#[test]
fn bmh_no_match() {
    let bmh = Bmh::new(b"xyz", false);
    assert_eq!(bmh.find_from(b"hello world", 0), None);
}

#[test]
fn bmh_at_start() {
    let bmh = Bmh::new(b"the", false);
    assert_eq!(bmh.find_from(b"the quick brown fox", 0), Some(0));
}

#[test]
fn bmh_at_end() {
    let bmh = Bmh::new(b"fox", false);
    assert_eq!(bmh.find_from(b"fox", 0), Some(0));
}

#[test]
fn bmh_case_insensitive() {
    let bmh = Bmh::new(b"hello", true);
    assert!(bmh.is_match(b"HELLO WORLD"));
    assert!(bmh.is_match(b"Hello World"));
    assert!(bmh.is_match(b"hello world"));
}

#[test]
fn bmh_case_sensitive() {
    let bmh = Bmh::new(b"Hello", false);
    assert!(bmh.is_match(b"Hello World"));
    assert!(!bmh.is_match(b"hello world"));
    assert!(!bmh.is_match(b"HELLO WORLD"));
}

#[test]
fn bmh_find_all() {
    let bmh = Bmh::new(b"ab", false);
    assert_eq!(
        bmh.find_all(b"ab cd ab ef ab"),
        vec![(0, 2), (6, 8), (12, 14)]
    );
}

#[test]
fn bmh_find_all_no_overlap() {
    let bmh = Bmh::new(b"aa", false);
    assert_eq!(bmh.find_all(b"aaaa"), vec![(0, 2), (2, 4)]);
}

#[test]
fn bmh_single_byte() {
    let bmh = Bmh::new(b"x", false);
    assert_eq!(bmh.find_from(b"abcxdef", 0), Some(3));
}

#[test]
fn bmh_empty_needle() {
    let bmh = Bmh::new(b"", false);
    assert_eq!(bmh.find_from(b"anything", 0), Some(0));
}

#[test]
fn bmh_haystack_shorter_than_needle() {
    let bmh = Bmh::new(b"longpattern", false);
    assert_eq!(bmh.find_from(b"short", 0), None);
}

#[test]
fn bmh_find_from_offset() {
    let bmh = Bmh::new(b"ab", false);
    assert_eq!(bmh.find_from(b"ab ab ab", 1), Some(3));
    assert_eq!(bmh.find_from(b"ab ab ab", 4), Some(6));
}

// --- Search::new ---

#[test]
fn new_lowercase_is_case_insensitive() {
    let s = Search::new("hello").unwrap();
    assert!(!s.find_matches("Hello World").is_empty());
    assert!(!s.find_matches("HELLO").is_empty());
}

#[test]
fn new_uppercase_is_case_sensitive() {
    let s = Search::new("Hello").unwrap();
    assert!(!s.find_matches("Hello").is_empty());
    assert!(s.find_matches("hello").is_empty());
    assert!(s.find_matches("HELLO").is_empty());
}

#[test]
fn new_empty_pattern_errors() {
    assert!(Search::new("").is_err());
}

#[test]
fn new_invalid_regex_errors() {
    assert!(Search::new("[invalid").is_err());
}

#[test]
fn new_regex_special_chars() {
    let s = Search::new("a.b").unwrap();
    assert!(!s.find_matches("axb").is_empty()); // dot matches any
    assert!(s.find_matches("ab").is_empty()); // but not zero chars
}

#[test]
fn new_literal_pattern_uses_bmh() {
    let s = Search::new("0500000").unwrap();
    assert!(matches!(s.matcher, Matcher::Literal(_)));
}

#[test]
fn new_regex_pattern_uses_regex() {
    let s = Search::new("foo.*bar").unwrap();
    assert!(matches!(s.matcher, Matcher::Regex(_)));
}

// --- find_matches ---

#[test]
fn matches_plain_text() {
    let s = Search::new("world").unwrap();
    let m = s.find_matches("hello world");
    assert_eq!(m, vec![(6, 11)]);
}

#[test]
fn matches_multiple() {
    let s = Search::new("a").unwrap();
    let m = s.find_matches("banana");
    assert_eq!(m, vec![(1, 2), (3, 4), (5, 6)]);
}

#[test]
fn matches_strips_ansi() {
    let s = Search::new("red").unwrap();
    let m = s.find_matches("\x1b[31mred\x1b[m text");
    assert_eq!(m, vec![(0, 3)]); // positions in stripped text
}

#[test]
fn matches_none() {
    let s = Search::new("xyz").unwrap();
    assert!(s.find_matches("hello world").is_empty());
}

// --- find_next_line ---

#[test]
fn find_forward_from_start() {
    let s = Search::new("match").unwrap();
    let buf = make_buffer(&["no", "match here", "also no"]);
    assert_eq!(s.find_next_line(&buf, 0, true), Some(1));
}

#[test]
fn find_forward_from_middle() {
    let s = Search::new("target").unwrap();
    let buf = make_buffer(&["target", "no", "target again"]);
    assert_eq!(s.find_next_line(&buf, 1, true), Some(2));
}

#[test]
fn find_forward_not_found() {
    let s = Search::new("missing").unwrap();
    let buf = make_buffer(&["a", "b", "c"]);
    assert_eq!(s.find_next_line(&buf, 0, true), None);
}

#[test]
fn find_backward_from_end() {
    let s = Search::new("match").unwrap();
    let buf = make_buffer(&["match here", "no", "also no"]);
    assert_eq!(s.find_next_line(&buf, 2, false), Some(0));
}

#[test]
fn find_backward_from_start() {
    let s = Search::new("anything").unwrap();
    let buf = make_buffer(&["a", "b"]);
    assert_eq!(s.find_next_line(&buf, 0, false), None);
}

#[test]
fn find_backward_stops_at_first_match() {
    let s = Search::new("x").unwrap();
    let buf = make_buffer(&["x1", "x2", "x3", "no"]);
    // Searching backward from line 3 should find line 2
    assert_eq!(s.find_next_line(&buf, 3, false), Some(2));
}

#[test]
fn find_with_ansi_content() {
    let s = Search::new("error").unwrap();
    let buf = make_buffer(&["ok", "\x1b[31merror\x1b[m occurred", "ok"]);
    assert_eq!(s.find_next_line(&buf, 0, true), Some(1));
}

#[test]
fn smart_case_mixed() {
    let s = Search::new("error").unwrap(); // lowercase → case insensitive
    let buf = make_buffer(&["ERROR found", "no match"]);
    assert_eq!(s.find_next_line(&buf, 0, true), Some(0));

    let s2 = Search::new("Error").unwrap(); // has uppercase → case sensitive
    let buf2 = make_buffer(&["ERROR found", "Error found"]);
    assert_eq!(s2.find_next_line(&buf2, 0, true), Some(1));
}

// --- more on Bmh ---

#[test]
fn bmh_agrees_with_a_plain_search() {
    let haystack = b"abracadabra abrab rabarbara ABRA";
    for needle in ["abra", "bra", "ab", "a", "rab", "barb", "zz", "abra abrab"] {
        let n = needle.as_bytes();
        for start in 0..haystack.len() + 2 {
            let plain = (start..haystack.len())
                .find(|&i| haystack[i..].starts_with(n));
            assert_eq!(Bmh::new(n, false).find_from(haystack, start), plain);
        }
    }
}

#[test]
fn bmh_empty_needle_has_no_ranges() {
    let bmh = Bmh::new(b"", false);
    assert!(bmh.find_all(b"abc").is_empty());
    assert_eq!(bmh.find_from(b"abc", 7), Some(7));
    assert!(bmh.is_match(b""));
}

#[test]
fn bmh_case_insensitive_needle_in_capitals() {
    let bmh = Bmh::new(b"HeLLo", true);
    assert_eq!(bmh.find_all(b"hello HELLO"), vec![(0, 5), (6, 11)]);
}

// --- messages and compiled expressions ---

#[test]
fn error_messages() {
    assert_eq!(Search::new("").err().unwrap(), "Empty pattern");
    let e = Search::new("[invalid").err().unwrap();
    assert!(e.starts_with("Invalid regex: "));
    assert!(e.len() > "Invalid regex: ".len());
}

#[test]
fn from_regex_passes_the_outcome_on() {
    let e = Search::from_regex("a.b", Err("no".to_string())).err().unwrap();
    assert_eq!(e, "Invalid regex: no");
    let s = Search::from_regex("a.b", Compiled::new("(?i)a.b")).ok().unwrap();
    assert_eq!(s.pattern, "a.b");
    assert!(s.is_match("xxAzB"));
}

#[test]
fn compiled_finds_ranges() {
    let c = Compiled::new("[0-9]+").ok().unwrap();
    assert!(c.is_match("a12"));
    assert!(!c.is_match("ab"));
    assert_eq!(c.find_all("a12 é3"), vec![(1, 3), (6, 7)]);
    assert!(c.find_all("").is_empty());
    let empty = Compiled::new("x*").ok().unwrap();
    assert_eq!(empty.find_all("axb"), vec![(0, 0), (1, 2), (3, 3)]);
    assert!(Compiled::new("(").err().unwrap().len() > 0);
}

#[test]
fn smart_case_looks_at_all_letters() {
    // An uppercase letter outside ASCII makes the search case-sensitive too.
    let s = Search::new("Éa").unwrap();
    assert!(s.is_match("xÉa"));
    assert!(!s.is_match("xÉA"));
    let s = Search::new("éa").unwrap();
    assert!(s.is_match("xéA"));
}

#[test]
fn literal_matches_are_parts_of_the_text() {
    for text in ["", "abc", "xaBc", "ABcx", "日aBC本", "ab c"] {
        let sensitive = Search::new("aBc").unwrap();
        assert_eq!(sensitive.is_match(text), text.contains("aBc"));
        let insensitive = Search::new("abc").unwrap();
        assert_eq!(insensitive.is_match(text), text.to_ascii_lowercase().contains("abc"));
    }
}

#[test]
fn regex_is_case_insensitive_unless_uppercase() {
    assert!(Search::new("fo+").unwrap().is_match("FOO"));
    assert!(!Search::new("Fo+").unwrap().is_match("FOO"));
}

#[test]
fn ranges_lie_between_characters() {
    let s = Search::new("本").unwrap();
    assert_eq!(s.find_matches_stripped("日本語本"), vec![(3, 6), (9, 12)]);
    let s = Search::new("本.").unwrap();
    assert_eq!(s.find_matches_stripped("日本語本"), vec![(3, 9)]);
}

#[test]
fn a_match_across_escapes() {
    let s = Search::new("hello").unwrap();
    assert!(s.is_match("\x1b[1mhel\x1b[0mlo"));
    assert!(!s.is_match_raw("\x1b[1mhel\x1b[0mlo"));
    assert_eq!(s.find_matches("\x1b[1mhel\x1b[0mlo"), vec![(0, 5)]);
}

// --- searching what was read ---

#[test]
fn line_to_read_among_some_lines() {
    let mut buf = LineBuffer::from_source();
    buf.read_more(vec![ReadOutcome::Line("a\n".to_string())]);
    let among = vec![0];
    assert_eq!(line_to_read(&ShownLines { buffer: &buf, among: Some(&among) }, 1, true), None);
}

#[test]
fn find_among_some_lines() {
    let s = Search::new("x").unwrap();
    let buf = make_buffer(&["x", "x", "no", "x"]);
    let among = vec![0, 2, 3];
    let lines = ShownLines { buffer: &buf, among: Some(&among) };
    assert_eq!(s.find_next_shown(&lines, 1, true), Some(2));
    assert_eq!(s.find_next_shown(&lines, 2, false), Some(0));
    assert_eq!(s.find_next_shown(&lines, 3, true), None);
    assert_eq!(lines.get_line(2), Some("x"));
    assert_eq!(lines.get_line(3), None);
}

#[test]
fn expression_of_a_pattern() {
    assert_eq!(expression_text("a.b"), "(?i)a.b");
    assert_eq!(expression_text("A.b"), "A.b");
}

#[test]
fn line_to_read_before_going_on() {
    let mut buf = LineBuffer::from_source();
    buf.read_more(vec![
        ReadOutcome::Line("a\n".to_string()),
        ReadOutcome::Line("b\n".to_string()),
    ]);
    assert_eq!(line_to_read(&ShownLines { buffer: &buf, among: None }, 0, true), Some(2));
    assert_eq!(line_to_read(&ShownLines { buffer: &buf, among: None }, 5, true), Some(5));
    assert_eq!(line_to_read(&ShownLines { buffer: &buf, among: None }, 2, false), None);
    assert_eq!(line_to_read(&ShownLines { buffer: &buf, among: None }, 5, false), Some(4));
    buf.read_more(vec![ReadOutcome::Eof]);
    assert_eq!(line_to_read(&ShownLines { buffer: &buf, among: None }, 0, true), None);
    assert_eq!(line_to_read(&ShownLines { buffer: &buf, among: None }, 5, false), None);
}

#[test]
fn find_backward_beyond_the_lines() {
    let s = Search::new("a").unwrap();
    let buf = make_buffer(&["a", "b"]);
    assert_eq!(s.find_next_line(&buf, 2, false), Some(0));
    assert_eq!(s.find_next_line(&buf, 3, false), None);
    assert_eq!(s.find_next_line(&buf, 9, true), None);
}

#[test]
fn only_ascii_letters_are_folded() {
    let literal = Search::new("ä").unwrap();
    assert!(literal.is_match("ä"));
    assert!(!literal.is_match("Ä"));
    let regex = Search::new("xä+").unwrap();
    assert!(regex.is_match("Xää"));
    assert!(!regex.is_match("XÄ"));
}

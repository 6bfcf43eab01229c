use lz::history::{SearchHistory, MAX_ENTRIES};

fn empty_history() -> SearchHistory {
    SearchHistory {
        entries: vec![],
        cursor: 0,
        draft: String::new(),
    }
}

fn history_with(entries: &[&str]) -> SearchHistory {
    let entries: Vec<String> = entries.iter().map(|s| s.to_string()).collect();
    let cursor = entries.len();
    SearchHistory {
        entries,
        cursor,
        draft: String::new(),
    }
}

#[test]
fn push_appends() {
    let mut h = empty_history();
    h.push("foo");
    assert_eq!(h.entries, vec!["foo"]);
}

#[test]
fn push_deduplicates() {
    let mut h = history_with(&["foo", "bar"]);
    h.push("foo");
    assert_eq!(h.entries, vec!["bar", "foo"]);
}

#[test]
fn push_caps_at_max() {
    let mut h = empty_history();
    for i in 0..105 {
        h.push(&format!("entry{}", i));
    }
    assert_eq!(h.entries.len(), MAX_ENTRIES);
    assert_eq!(h.entries[0], "entry5");
}

#[test]
fn push_empty_is_noop() {
    let mut h = empty_history();
    h.push("");
    assert!(h.entries.is_empty());
}

#[test]
fn prev_cycles_backward() {
    let mut h = history_with(&["a", "b", "c"]);
    assert_eq!(h.prev("draft"), Some("c"));
    assert_eq!(h.prev("draft"), Some("b"));
    assert_eq!(h.prev("draft"), Some("a"));
    // stays at oldest
    assert_eq!(h.prev("draft"), Some("a"));
}

#[test]
fn prev_saves_draft() {
    let mut h = history_with(&["a"]);
    h.prev("my draft");
    assert_eq!(h.draft(), "my draft");
}

#[test]
fn prev_empty_returns_none() {
    let mut h = empty_history();
    assert_eq!(h.prev("x"), None);
}

#[test]
fn next_cycles_forward() {
    let mut h = history_with(&["a", "b", "c"]);
    h.prev(""); // c, cursor=2
    h.prev(""); // b, cursor=1
    assert_eq!(h.next(), Some("c"));
    // past end returns None
    assert_eq!(h.next(), None);
}

#[test]
fn next_at_end_returns_none() {
    let mut h = history_with(&["a"]);
    assert_eq!(h.next(), None);
}

#[test]
fn reset_cursor_goes_to_end() {
    let mut h = history_with(&["a", "b"]);
    h.prev("draft");
    h.reset_cursor();
    assert_eq!(h.cursor, h.entries.len());
    assert_eq!(h.draft(), "");
}

#[test]
fn load_nonexistent_returns_empty() {
    let h = SearchHistory::load(None);
    assert!(h.entries.is_empty());
}

#[test]
fn save_and_load_roundtrip() {
    let mut h = empty_history();
    h.push("first");
    h.push("second");
    let text = h.save();

    let h2 = SearchHistory::load(Some(&text));
    assert_eq!(h2.entries, vec!["first", "second"]);
}

#[test]
fn load_skips_empty_lines() {
    let h = SearchHistory::load(Some("a\n\nb\n\n"));
    assert_eq!(h.entries, vec!["a", "b"]);
}

#[test]
fn save_exact_text() {
    assert_eq!(empty_history().save(), "");
    assert_eq!(history_with(&["a", "b"]).save(), "a\nb\n");
}

#[test]
fn load_line_endings() {
    let h = SearchHistory::load(Some("a\r\nb\nc\r"));
    assert_eq!(h.entries, vec!["a", "b", "c\r"]);
    assert_eq!(h.cursor, 3);
    assert_eq!(h.draft(), "");
}

#[test]
fn push_keeps_latest_last_and_once() {
    let mut h = history_with(&["a", "b", "c"]);
    h.push("b");
    assert_eq!(h.entries, vec!["a", "c", "b"]);
    assert_eq!(h.cursor, 3);
}

#[test]
fn next_undoes_prev() {
    let mut h = history_with(&["a", "b", "c"]);
    h.prev("typed");
    h.prev("typed");
    let cursor = h.cursor;
    h.prev("typed");
    assert_eq!(h.next(), Some("b"));
    assert_eq!(h.cursor, cursor);
    assert_eq!(h.draft(), "typed");
}

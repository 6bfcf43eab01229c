use lz::buffer::{LineBuffer, ReadOutcome};
use lz::history::SearchHistory;
use lz::input::Key;
use lz::pager::{Pager, Turn};
use lz::search::Search;
use lz::state::{Action, Mode, SearchDir, Step};

fn numbered(n: usize) -> Vec<String> {
    (0..n).map(|i| format!("line {}", i)).collect()
}

fn pager_of(lines: Vec<String>, width: u16, height: u16) -> Pager {
    let buffer = LineBuffer::from_lines(lines);
    Pager::new(buffer, false, false, None, SearchHistory::load(None), (width, height))
}

fn pager_from_input(follow: bool) -> Pager {
    let buffer = LineBuffer::from_source();
    Pager::new(buffer, follow, false, None, SearchHistory::load(None), (20, 5))
}

fn press(p: &mut Pager, keys: &[Key]) {
    for &k in keys {
        assert!(p.accepts_key(k));
        assert_eq!(p.handle_key(k), Step::Continue);
    }
}

fn type_text(p: &mut Pager, s: &str) {
    for c in s.chars() {
        press(p, &[Key::Char(c)]);
    }
}

fn outcomes(from: usize, to: usize) -> Vec<ReadOutcome> {
    (from..to).map(|i| ReadOutcome::Line(format!("line {}\n", i))).collect()
}

// --- a new pager ---

#[test]
fn new_pager_state() {
    let p = pager_of(numbered(3), 20, 5);
    assert_eq!(p.mode, Mode::Normal);
    assert_eq!((p.top_line, p.left_col, p.wrap), (0, 0, false));
    assert_eq!(p.search_dir, SearchDir::Forward);
    assert_eq!(p.content_height(), 4);
    assert_eq!(p.display_line_count(), 3);
    assert!(p.history().entries.is_empty());
    assert_eq!(pager_from_input(true).mode, Mode::Follow);
}

#[test]
fn content_height_is_at_least_one() {
    assert_eq!(pager_of(numbered(3), 20, 1).content_height(), 1);
    assert_eq!(pager_of(numbered(3), 20, 2).content_height(), 1);
}

// --- scrolling ---

#[test]
fn scroll_by_lines_and_pages() {
    let mut p = pager_of(numbered(100), 20, 11);
    press(&mut p, &[Key::Char('j'), Key::Down, Key::Enter]);
    assert_eq!(p.top_line, 3);
    press(&mut p, &[Key::Char('k')]);
    assert_eq!(p.top_line, 2);
    press(&mut p, &[Key::Char('d')]);
    assert_eq!(p.top_line, 7);
    press(&mut p, &[Key::Ctrl('u')]);
    assert_eq!(p.top_line, 2);
    press(&mut p, &[Key::Char(' ')]);
    assert_eq!(p.top_line, 11);
    press(&mut p, &[Key::PageDown, Key::Ctrl('f')]);
    assert_eq!(p.top_line, 29);
    press(&mut p, &[Key::Char('b'), Key::PageUp, Key::Ctrl('b')]);
    assert_eq!(p.top_line, 2);
    press(&mut p, &[Key::Up, Key::Up, Key::Up]);
    assert_eq!(p.top_line, 0);
}

#[test]
fn scroll_stops_at_the_ends() {
    let mut p = pager_of(numbered(10), 20, 5);
    press(&mut p, &[Key::Char('G')]);
    assert_eq!(p.top_line, 6);
    press(&mut p, &[Key::Char('j'), Key::Char(' ')]);
    assert_eq!(p.top_line, 6);
    press(&mut p, &[Key::Char('g')]);
    assert_eq!(p.top_line, 0);
    press(&mut p, &[Key::Char('u')]);
    assert_eq!(p.top_line, 0);
    let mut short = pager_of(numbered(3), 20, 5);
    press(&mut short, &[Key::Char('j'), Key::End]);
    assert_eq!(short.top_line, 0);
}

#[test]
fn scroll_up_undoes_scroll_down() {
    let mut p = pager_of(numbered(50), 20, 9);
    press(&mut p, &[Key::Char('j'), Key::Char('d'), Key::Char('u')]);
    assert_eq!(p.top_line, 1);
}

#[test]
fn half_and_full_page_of_small_screens() {
    let mut p = pager_of(numbered(50), 20, 2);
    press(&mut p, &[Key::Char('d')]);
    assert_eq!(p.top_line, 1);
    press(&mut p, &[Key::Char(' ')]);
    assert_eq!(p.top_line, 2);
}

#[test]
fn scroll_sideways() {
    let mut p = pager_of(numbered(5), 20, 5);
    press(&mut p, &[Key::Right, Key::Right]);
    assert_eq!(p.left_col, 16);
    press(&mut p, &[Key::Left]);
    assert_eq!(p.left_col, 8);
    press(&mut p, &[Key::Left, Key::Left]);
    assert_eq!(p.left_col, 0);
    press(&mut p, &[Key::Right, Key::Home]);
    assert_eq!(p.left_col, 0);
    p.left_col = usize::MAX - 7;
    assert!(!p.accepts_key(Key::Right));
    assert!(p.accepts_key(Key::Left));
}

#[test]
fn wrapping_has_no_sideways() {
    let mut p = pager_of(numbered(5), 20, 5);
    press(&mut p, &[Key::Right, Key::Char('w')]);
    assert!(p.wrap);
    assert_eq!(p.left_col, 0);
    press(&mut p, &[Key::Right]);
    assert_eq!(p.left_col, 0);
    press(&mut p, &[Key::Char('w')]);
    assert!(!p.wrap);
}

#[test]
fn wrapped_scrolling_counts_rows() {
    // Lines of 3, 1, 1, 2, 1, 1, 1 and 1 rows.
    let lines: Vec<String> = ["x".repeat(25), "b".into(), "".into(), "y".repeat(11), "e".into()]
        .into_iter()
        .chain(["f".to_string(), "g".to_string(), "h".to_string()])
        .collect();
    let mut p = pager_of(lines, 10, 4);
    press(&mut p, &[Key::Char('w'), Key::Char('j')]);
    // One row is less than the first line has, but it is left.
    assert_eq!(p.top_line, 1);
    p.term_height = 7;
    press(&mut p, &[Key::Char('d')]);
    // Of three rows one is left, which is less than the next line has.
    assert_eq!(p.top_line, 3);
    press(&mut p, &[Key::Char('k')]);
    assert_eq!(p.top_line, 2);
    press(&mut p, &[Key::Char(' ')]);
    // The last six rows fill the screen.
    assert_eq!(p.top_line, 3);
    press(&mut p, &[Key::Char(' ')]);
    assert_eq!(p.top_line, 3);
    press(&mut p, &[Key::Char('u')]);
    assert_eq!(p.top_line, 0);
}

#[test]
fn wrapped_scrolling_leaves_a_long_line() {
    let mut p = pager_of(vec!["x".repeat(25); 100], 10, 24);
    press(&mut p, &[Key::Char('w'), Key::Char('j')]);
    assert_eq!(p.top_line, 1);
    press(&mut p, &[Key::Down, Key::Enter]);
    assert_eq!(p.top_line, 3);
}

#[test]
fn wrapped_bottom_shows_the_last_line() {
    // Seven lines of three rows fit in 23 rows.
    let mut p = pager_of(vec!["x".repeat(25); 100], 10, 24);
    press(&mut p, &[Key::Char('w'), Key::Char('G')]);
    assert_eq!(p.top_line, 93);
    // There is nothing to scroll down to.
    press(&mut p, &[Key::Char('j'), Key::Char('d'), Key::Char(' ')]);
    assert_eq!(p.top_line, 93);
    press(&mut p, &[Key::Char('k')]);
    assert_eq!(p.top_line, 92);
    // Without wrapping a line takes one row.
    press(&mut p, &[Key::Char('w'), Key::Char('G')]);
    assert_eq!(p.top_line, 77);
}

#[test]
fn wrapped_bottom_of_other_lines() {
    // All lines fit.
    let mut p = pager_of(vec!["x".repeat(25); 2], 10, 7);
    press(&mut p, &[Key::Char('w'), Key::Char('G')]);
    assert_eq!(p.top_line, 0);
    // The last line does not fit by itself.
    let mut p = pager_of(vec!["x".repeat(25); 4], 10, 3);
    press(&mut p, &[Key::Char('w'), Key::Char('G')]);
    assert_eq!(p.top_line, 3);
    // A long line above the last one.
    let mut p = pager_of(vec!["x".repeat(95), "y".into()], 10, 6);
    press(&mut p, &[Key::Char('w'), Key::Char('G')]);
    assert_eq!(p.top_line, 1);
    // No lines.
    let mut p = pager_of(vec![], 10, 6);
    press(&mut p, &[Key::Char('w'), Key::Char('G')]);
    assert_eq!(p.top_line, 0);
    // Only lines that pass the filter count.
    let lines: Vec<String> = (0..20).map(|i| (if i % 2 == 0 { "a" } else { "b" }).repeat(15)).collect();
    let mut p = pager_of(lines, 10, 6);
    press(&mut p, &[Key::Char('&'), Key::Char('a'), Key::Enter, Key::Char('w'), Key::Char('G')]);
    assert_eq!(p.top_line, 8);
}

#[test]
fn wrapped_scrolling_counts_filtered_lines() {
    let lines = ["a", "b", "b"].map(String::from).to_vec();
    let mut p = pager_of(lines, 10, 2);
    press(&mut p, &[Key::Char('&'), Key::Char('a'), Key::Enter, Key::Char('w'), Key::Char('j')]);
    assert_eq!(p.top_line, 0);
    assert_eq!(p.display_line_idx(p.top_line), Some(0));
}

#[test]
fn raw_mode_counts_escapes_when_wrapping() {
    let line = "\x1b[31m".repeat(3);
    let mut lines = numbered(7);
    lines[0] = line;
    let mut p = pager_of(lines, 10, 5);
    p.wrap = true;
    press(&mut p, &[Key::Char('d')]);
    assert_eq!(p.top_line, 2);
    p.top_line = 0;
    p.raw_mode = true;
    press(&mut p, &[Key::Char('d')]);
    assert_eq!(p.top_line, 1);
}

// --- reading as needed ---

#[test]
fn scrolling_asks_for_lines() {
    let mut p = pager_from_input(false);
    assert_eq!(p.start(), Step::Continue);
    assert_eq!(p.handle_key(Key::Char('j')), Step::NeedLine(5));
    assert_eq!(p.pending, Action::Down { rows: 1 });
    assert_eq!(p.top_line, 0);
    assert_eq!(p.feed(outcomes(0, 3)), 3);
    assert_eq!(p.resume(), Step::NeedLine(5));
    assert_eq!(p.feed(outcomes(3, 6)), 3);
    assert_eq!(p.resume(), Step::Continue);
    assert_eq!(p.top_line, 1);
    assert_eq!(p.pending, Action::Idle);
    // The end of the input limits the next steps.
    assert_eq!(p.handle_key(Key::Char('j')), Step::NeedLine(6));
    p.feed(vec![ReadOutcome::Eof]);
    assert_eq!(p.resume(), Step::Continue);
    assert_eq!(p.top_line, 2);
    press(&mut p, &[Key::Char('j')]);
    assert_eq!(p.top_line, 2);
}

#[test]
fn wrapped_scrolling_asks_for_lines() {
    let mut p = pager_from_input(false);
    press(&mut p, &[Key::Char('w')]);
    assert_eq!(p.handle_key(Key::Char('j')), Step::NeedLine(0));
    p.feed(outcomes(0, 1));
    assert_eq!(p.resume(), Step::NeedLine(1));
    p.feed(outcomes(1, 3));
    assert_eq!(p.resume(), Step::NeedLine(3));
    p.feed(vec![ReadOutcome::Eof]);
    assert_eq!(p.resume(), Step::Continue);
    assert_eq!(p.top_line, 0);
}

#[test]
fn going_to_the_bottom_asks_for_all() {
    let mut p = pager_from_input(false);
    assert_eq!(p.handle_key(Key::Char('G')), Step::NeedAll);
    p.feed(outcomes(0, 10));
    assert_eq!(p.resume(), Step::NeedAll);
    p.feed(vec![ReadOutcome::Eof]);
    assert_eq!(p.resume(), Step::Continue);
    assert_eq!(p.top_line, 6);
}

#[test]
fn search_goes_on_where_lines_ended() {
    let mut p = pager_from_input(false);
    p.feed(outcomes(0, 4));
    press(&mut p, &[Key::Char('/')]);
    type_text(&mut p, "line 7");
    assert_eq!(p.handle_key(Key::Enter), Step::NeedLine(4));
    assert_eq!(p.pending, Action::Search { forward: true, from: 4 });
    p.feed(outcomes(4, 6));
    assert_eq!(p.resume(), Step::NeedLine(6));
    p.feed(outcomes(6, 9));
    assert_eq!(p.resume(), Step::Continue);
    assert_eq!(p.top_line, 7);
    assert_eq!(p.current_match_line, Some(7));
}

#[test]
fn drawing_asks_for_a_screen_of_lines() {
    let mut p = pager_from_input(false);
    assert_eq!(p.needed_for_render(), 256);
    p.feed(outcomes(0, 4));
    assert_eq!(p.needed_for_render(), 256);
    p.feed(outcomes(4, 5));
    assert_eq!(p.needed_for_render(), 0);
    press(&mut p, &[Key::Char('h')]);
    p.buffer.lines.clear();
    assert_eq!(p.needed_for_render(), 0);
}

// --- searching ---

#[test]
fn search_forward_and_backward() {
    let mut p = pager_of(numbered(40), 20, 5);
    press(&mut p, &[Key::Char('/')]);
    assert_eq!(p.mode, Mode::SearchInput);
    type_text(&mut p, "line 1");
    press(&mut p, &[Key::Enter]);
    assert_eq!(p.mode, Mode::Normal);
    assert_eq!(p.top_line, 1);
    press(&mut p, &[Key::Char('n')]);
    assert_eq!(p.top_line, 10);
    press(&mut p, &[Key::Char('n')]);
    assert_eq!(p.top_line, 11);
    press(&mut p, &[Key::Char('N')]);
    assert_eq!(p.top_line, 10);
    press(&mut p, &[Key::Char('?')]);
    assert_eq!(p.search_dir, SearchDir::Backward);
    type_text(&mut p, "5");
    press(&mut p, &[Key::Enter]);
    assert_eq!(p.top_line, 5);
    assert_eq!(p.history().entries, vec!["line 1", "5"]);
}

#[test]
fn search_without_a_match_stays() {
    let mut p = pager_of(numbered(40), 20, 5);
    press(&mut p, &[Key::Char('j'), Key::Char('/')]);
    type_text(&mut p, "zzz");
    press(&mut p, &[Key::Enter]);
    assert_eq!(p.top_line, 1);
    assert_eq!(p.current_match_line, None);
    assert_eq!(p.status_msg.as_deref(), Some("Pattern not found"));
    press(&mut p, &[Key::Char('x')]);
    assert_eq!(p.status_msg, None);
}

#[test]
fn next_without_a_search_does_nothing() {
    let mut p = pager_of(numbered(4), 20, 5);
    press(&mut p, &[Key::Char('n'), Key::Char('N')]);
    assert_eq!(p.top_line, 0);
    assert_eq!(p.status_msg, None);
}

#[test]
fn invalid_pattern_is_reported() {
    let mut p = pager_of(numbered(4), 20, 5);
    press(&mut p, &[Key::Char('/')]);
    type_text(&mut p, "[x");
    press(&mut p, &[Key::Enter]);
    assert_eq!(p.mode, Mode::Normal);
    assert!(p.search.is_none());
    assert!(p.status_msg.as_deref().unwrap().starts_with("Invalid regex: "));
    // It is kept in the history all the same.
    assert_eq!(p.history().entries, vec!["[x"]);
}

#[test]
fn entering_a_search_takes_the_answer() {
    let mut p = pager_of(numbered(4), 20, 5);
    press(&mut p, &[Key::Char('/')]);
    type_text(&mut p, "2$");
    p.enter_search(Err("no good".to_string()));
    assert_eq!(p.status_msg.as_deref(), Some("no good"));
    assert_eq!(p.pending, Action::Idle);
    press(&mut p, &[Key::Char('/')]);
    type_text(&mut p, "2$");
    p.enter_search(Search::new("2$"));
    assert_eq!(p.pending, Action::Search { forward: true, from: 0 });
    assert_eq!(p.resume(), Step::Continue);
    assert_eq!(p.top_line, 2);
}

#[test]
fn empty_or_cancelled_search_changes_nothing() {
    let mut p = pager_of(numbered(4), 20, 5);
    press(&mut p, &[Key::Char('/'), Key::Enter]);
    assert_eq!(p.mode, Mode::Normal);
    assert!(p.search.is_none());
    press(&mut p, &[Key::Char('/'), Key::Char('a'), Key::Escape]);
    assert_eq!(p.mode, Mode::Normal);
    assert!(p.search.is_none());
    assert!(p.history().entries.is_empty());
}

#[test]
fn editing_the_search() {
    let mut p = pager_of(numbered(4), 20, 5);
    press(&mut p, &[Key::Char('/')]);
    type_text(&mut p, "ac");
    press(&mut p, &[Key::Left, Key::Char('b'), Key::Home, Key::Delete, Key::End, Key::Char('é')]);
    assert_eq!(p.search_input.content, "bcé");
    press(&mut p, &[Key::Backspace, Key::Home, Key::Right, Key::PageUp]);
    assert_eq!(p.search_input.content, "bc");
    assert_eq!(p.search_input.cursor, 1);
}

#[test]
fn recalling_searches() {
    let mut p = pager_of(numbered(4), 20, 5);
    p.history = SearchHistory::load(Some("one\ntwo\n"));
    press(&mut p, &[Key::Char('/')]);
    type_text(&mut p, "draft");
    press(&mut p, &[Key::Up]);
    assert_eq!(p.search_input.content, "two");
    assert_eq!(p.search_input.cursor, 3);
    press(&mut p, &[Key::Up, Key::Up]);
    assert_eq!(p.search_input.content, "one");
    press(&mut p, &[Key::Down]);
    assert_eq!(p.search_input.content, "two");
    press(&mut p, &[Key::Down]);
    assert_eq!(p.search_input.content, "draft");
}

#[test]
fn recalling_from_an_empty_history() {
    let mut p = pager_of(numbered(4), 20, 5);
    press(&mut p, &[Key::Char('/')]);
    type_text(&mut p, "draft");
    press(&mut p, &[Key::Up]);
    assert_eq!(p.search_input.content, "draft");
    press(&mut p, &[Key::Down]);
    assert_eq!(p.search_input.content, "");
}

// --- filtering ---

#[test]
fn filter_shows_matching_lines() {
    let mut p = pager_of(numbered(30), 20, 5);
    press(&mut p, &[Key::Char('j'), Key::Char('&')]);
    assert_eq!(p.mode, Mode::FilterInput);
    type_text(&mut p, "line 2");
    press(&mut p, &[Key::Enter]);
    assert_eq!(p.filtered_lines, vec![2, 20, 21, 22, 23, 24, 25, 26, 27, 28, 29]);
    assert_eq!(p.top_line, 0);
    assert_eq!(p.display_line_count(), 11);
    assert_eq!(p.display_line_idx(1), Some(20));
    assert_eq!(p.display_line_idx(11), None);
    press(&mut p, &[Key::Char('G')]);
    assert_eq!(p.top_line, 7);
    press(&mut p, &[Key::Char('j')]);
    assert_eq!(p.top_line, 7);
    press(&mut p, &[Key::Char('&'), Key::Enter]);
    assert!(p.filter.is_none());
    assert!(p.filtered_lines.is_empty());
    assert_eq!(p.display_line_count(), 30);
}

#[test]
fn search_under_a_filter() {
    let lines = ["a x", "b y", "a y", "c", "a y"].map(String::from).to_vec();
    let mut p = pager_of(lines, 20, 2);
    press(&mut p, &[Key::Char('&'), Key::Char('a'), Key::Enter]);
    press(&mut p, &[Key::Char('/'), Key::Char('y'), Key::Enter]);
    assert_eq!(p.current_match_line, Some(2));
    assert_eq!(p.top_line, 1);
    assert_eq!(p.display_line_idx(p.top_line), Some(2));
    press(&mut p, &[Key::Char('n')]);
    assert_eq!((p.current_match_line, p.top_line), (Some(4), 2));
    press(&mut p, &[Key::Char('n')]);
    assert_eq!(p.status_msg.as_deref(), Some("Pattern not found"));
    assert_eq!((p.current_match_line, p.top_line), (Some(4), 2));
    press(&mut p, &[Key::Char('N')]);
    assert_eq!((p.current_match_line, p.top_line), (Some(2), 1));
    press(&mut p, &[Key::Char('N')]);
    assert_eq!(p.status_msg.as_deref(), Some("Pattern not found"));
}

#[test]
fn filter_asks_for_all_lines() {
    let mut p = pager_from_input(false);
    press(&mut p, &[Key::Char('&')]);
    type_text(&mut p, "1");
    assert_eq!(p.handle_key(Key::Enter), Step::NeedAll);
    assert_eq!(p.pending, Action::Filter);
    p.feed(outcomes(0, 12));
    p.feed(vec![ReadOutcome::Eof]);
    assert_eq!(p.resume(), Step::Continue);
    assert_eq!(p.filtered_lines, vec![1, 10, 11]);
}

#[test]
fn filter_refused_or_cancelled() {
    let mut p = pager_of(numbered(4), 20, 5);
    press(&mut p, &[Key::Char('&')]);
    type_text(&mut p, "(");
    press(&mut p, &[Key::Enter]);
    assert!(p.filter.is_none());
    assert!(p.status_msg.as_deref().unwrap().starts_with("Invalid regex: "));
    press(&mut p, &[Key::Char('&'), Key::Char('a'), Key::Backspace, Key::Char('b')]);
    assert_eq!(p.filter_input.content, "b");
    press(&mut p, &[Key::Ctrl('c')]);
    assert_eq!(p.mode, Mode::Normal);
    assert!(p.filter.is_none());
    press(&mut p, &[Key::Char('&'), Key::Char('3')]);
    p.enter_filter(Err("no good".to_string()));
    assert_eq!(p.status_msg.as_deref(), Some("no good"));
}

// --- modes ---

#[test]
fn quitting() {
    for k in [Key::Char('q'), Key::Escape, Key::Ctrl('c')] {
        assert_eq!(pager_of(numbered(4), 20, 5).handle_key(k), Step::Quit);
        let mut p = pager_from_input(true);
        assert_eq!(p.handle_key(k), Step::Quit);
    }
    let mut p = pager_from_input(true);
    press(&mut p, &[Key::Char('j'), Key::Enter]);
    assert_eq!(p.mode, Mode::Follow);
}

#[test]
fn help_screen_returns() {
    let mut p = pager_of(numbered(10), 20, 5);
    press(&mut p, &[Key::Char('j'), Key::Char('h')]);
    assert_eq!(p.mode, Mode::Help);
    press(&mut p, &[Key::Char('j'), Key::Ctrl('c')]);
    assert_eq!(p.mode, Mode::Help);
    press(&mut p, &[Key::Char('q')]);
    assert_eq!(p.mode, Mode::Normal);
    assert_eq!(p.top_line, 1);
    press(&mut p, &[Key::Char('h'), Key::Escape, Key::Char('h'), Key::Char('h')]);
    assert_eq!(p.mode, Mode::Normal);
}

#[test]
fn follow_mode_shows_new_lines() {
    let mut p = pager_from_input(true);
    assert_eq!(p.start(), Step::NeedAll);
    p.feed(outcomes(0, 10));
    p.feed(vec![ReadOutcome::Eof]);
    assert_eq!(p.resume(), Step::Continue);
    assert_eq!(p.top_line, 6);
    p.poll(vec![ReadOutcome::Eof]);
    assert_eq!(p.top_line, 6);
    let mut more = outcomes(10, 12);
    more.push(ReadOutcome::Eof);
    p.poll(more);
    assert_eq!(p.top_line, 8);
    assert_eq!(p.buffer.len(), 12);
}

#[test]
fn wrapped_follow_mode_shows_new_lines() {
    let mut p = pager_from_input(true);
    p.term_width = 4;
    p.wrap = true;
    assert_eq!(p.start(), Step::NeedAll);
    p.feed(outcomes(0, 10));
    p.feed(vec![ReadOutcome::Eof]);
    assert_eq!(p.resume(), Step::Continue);
    // Lines of two rows, two of which fit.
    assert_eq!(p.top_line, 8);
    let mut more = outcomes(10, 12);
    more.push(ReadOutcome::Eof);
    p.poll(more);
    // Those of line 10 and line 11 do too.
    assert_eq!(p.top_line, 10);
    p.poll(vec![ReadOutcome::Eof]);
    assert_eq!(p.top_line, 10);
}

#[test]
fn entering_follow_mode() {
    let mut p = pager_of(numbered(10), 20, 5);
    press(&mut p, &[Key::Char('F')]);
    assert_eq!(p.mode, Mode::Follow);
    assert!(p.follow);
    assert_eq!(p.top_line, 6);
}

#[test]
fn unused_keys_do_nothing() {
    let mut p = pager_of(numbered(10), 20, 5);
    press(&mut p, &[Key::Char('z'), Key::Unknown, Key::Delete, Key::Ctrl('x'), Key::Backspace]);
    assert_eq!((p.top_line, p.left_col, p.mode), (0, 0, Mode::Normal));
}

#[test]
fn turns_and_resizing() {
    let mut p = pager_of(numbered(10), 20, 5);
    assert_eq!(p.next_turn(true, true, true), Turn::Quit);
    assert_eq!(p.next_turn(false, true, true), Turn::Resume);
    assert_eq!(p.next_turn(false, false, true), Turn::Resize);
    assert_eq!(p.next_turn(false, false, false), Turn::Key);
    p.resize((30, 8));
    assert_eq!((p.term_width, p.term_height), (30, 8));
    press(&mut p, &[Key::Char('F')]);
    assert_eq!(p.next_turn(false, false, false), Turn::PollThenKey);
}

use lz::buffer::{prepopulate_buffer, LineBuffer, ReadOutcome};

/// An input that is read line by line.
struct Input {
    text: String,
    pos: usize,
}

impl Input {
    fn take(&mut self, count: usize) -> Vec<ReadOutcome> {
        let mut reads = Vec::new();
        for _ in 0..count {
            let rest = &self.text[self.pos..];
            if rest.is_empty() {
                reads.push(ReadOutcome::Eof);
                break;
            }
            let end = rest.find('\n').map(|i| i + 1).unwrap_or(rest.len());
            reads.push(ReadOutcome::Line(rest[..end].to_string()));
            self.pos += end;
        }
        reads
    }
}

fn make_input(content: &str) -> (Input, LineBuffer) {
    (Input { text: content.to_string(), pos: 0 }, LineBuffer::from_source())
}

fn get_line<'a>(buf: &'a mut LineBuffer, input: &mut Input, n: usize) -> Option<&'a str> {
    while buf.needed_for(n) > 0 {
        let count = buf.needed_for(n);
        if buf.read_more(input.take(count)) == 0 {
            break;
        }
    }
    buf.get_line(n)
}

fn read_rest(buf: &mut LineBuffer, input: &mut Input) {
    while buf.needed_for_all() > 0 {
        let count = buf.needed_for_all();
        if buf.read_more(input.take(count)) == 0 {
            break;
        }
    }
}

// --- LineBuffer from an input ---

#[test]
fn read_simple_file() {
    let (mut input, mut buf) = make_input("line1\nline2\nline3\n");

    assert_eq!(get_line(&mut buf, &mut input, 0), Some("line1"));
    assert_eq!(get_line(&mut buf, &mut input, 1), Some("line2"));
    assert_eq!(get_line(&mut buf, &mut input, 2), Some("line3"));
    assert_eq!(get_line(&mut buf, &mut input, 3), None);
}

#[test]
fn read_no_trailing_newline() {
    let (mut input, mut buf) = make_input("line1\nline2");

    assert_eq!(get_line(&mut buf, &mut input, 0), Some("line1"));
    assert_eq!(get_line(&mut buf, &mut input, 1), Some("line2"));
    assert_eq!(get_line(&mut buf, &mut input, 2), None);
}

#[test]
fn read_empty_file() {
    let (mut input, mut buf) = make_input("");

    assert_eq!(get_line(&mut buf, &mut input, 0), None);
    assert!(buf.is_finished());
    assert_eq!(buf.len(), 0);
}

#[test]
fn read_crlf_lines() {
    let (mut input, mut buf) = make_input("line1\r\nline2\r\n");

    assert_eq!(get_line(&mut buf, &mut input, 0), Some("line1"));
    assert_eq!(get_line(&mut buf, &mut input, 1), Some("line2"));
}

#[test]
fn read_single_empty_line() {
    let (mut input, mut buf) = make_input("\n");

    assert_eq!(get_line(&mut buf, &mut input, 0), Some(""));
    assert_eq!(get_line(&mut buf, &mut input, 1), None);
}

#[test]
fn lazy_loading() {
    let (mut input, mut buf) = make_input("a\nb\nc\nd\ne\n");

    // Before any access, nothing is loaded
    assert_eq!(buf.len(), 0);
    assert!(!buf.is_finished());

    // Accessing line 0 triggers lazy load (reads in chunks of 256)
    assert_eq!(get_line(&mut buf, &mut input, 0), Some("a"));
    assert!(buf.len() >= 1);
}

#[test]
fn read_all() {
    let (mut input, mut buf) = make_input("a\nb\nc\n");

    read_rest(&mut buf, &mut input);
    assert!(buf.is_finished());
    assert_eq!(buf.line_count(), Some(3));
    assert_eq!(buf.len(), 3);
}

#[test]
fn push_line() {
    let (_, mut buf) = make_input("");

    buf.push_line("injected".to_string());
    assert_eq!(buf.lines[0], "injected");
    assert_eq!(buf.len(), 1);
}

// --- binary detection ---

#[test]
fn binary_detection_positive() {
    assert!(LineBuffer::check_binary(&[0x00, 0x01, 0x02]));
}

#[test]
fn binary_detection_negative() {
    assert!(!LineBuffer::check_binary(b"just text\n"));
}

#[test]
fn binary_detection_stops_after_8k() {
    let mut head = vec![b'x'; 8192];
    head.push(0);
    assert!(!LineBuffer::check_binary(&head));
    head[8191] = 0;
    assert!(LineBuffer::check_binary(&head));
    assert!(!LineBuffer::check_binary(&[]));
}

// --- read_more ---

#[test]
fn read_more_partial() {
    let (mut input, mut buf) = make_input("a\nb\nc\nd\ne\n");

    let n = buf.read_more(input.take(2));
    assert_eq!(n, 2);
    assert_eq!(buf.len(), 2);
    assert!(!buf.is_finished());
}

#[test]
fn read_more_past_eof() {
    let (mut input, mut buf) = make_input("a\nb\n");

    let n = buf.read_more(input.take(100));
    assert_eq!(n, 2);
    assert!(buf.is_finished());
}

#[test]
fn read_more_ends_with_an_error() {
    let mut buf = LineBuffer::from_source();
    let n = buf.read_more(vec![
        ReadOutcome::Line("a\n".to_string()),
        ReadOutcome::Failed,
        ReadOutcome::Line("b\n".to_string()),
    ]);
    assert_eq!(n, 1);
    assert!(buf.is_finished());
    assert_eq!(buf.lines, vec!["a"]);
    // Once finished, nothing more is taken in.
    assert_eq!(buf.read_more(vec![ReadOutcome::Line("c\n".to_string())]), 0);
    assert_eq!(buf.lines, vec!["a"]);
}

#[test]
fn read_more_without_an_input() {
    let mut buf = LineBuffer::from_lines(vec!["a".to_string()]);
    assert_eq!(buf.read_more(vec![ReadOutcome::Line("b\n".to_string())]), 0);
    assert_eq!(buf.needed_for(5), 0);
    assert_eq!(buf.needed_for_all(), 0);
    assert_eq!(buf.line_count(), Some(1));
}

#[test]
fn batches_to_read() {
    let mut buf = LineBuffer::from_source();
    assert_eq!(buf.line_count(), None);
    assert_eq!(buf.needed_for(0), 256);
    assert_eq!(buf.needed_for_all(), 4096);
    buf.read_more(vec![ReadOutcome::Line("a\n".to_string())]);
    assert_eq!(buf.needed_for(0), 0);
    assert_eq!(buf.needed_for(1), 256);
    assert_eq!(buf.needed_for_all(), 4096);
    buf.read_more(vec![ReadOutcome::Eof]);
    assert_eq!(buf.needed_for(1), 0);
    assert_eq!(buf.needed_for_all(), 0);
}

#[test]
fn pieces_make_no_difference() {
    let text = "a\nb\nc\nd";
    for first in 0..6 {
        let (mut input, mut buf) = make_input(text);
        buf.read_more(input.take(first));
        buf.read_more(input.take(10));
        assert_eq!(buf.lines, vec!["a", "b", "c", "d"]);
        assert!(buf.is_finished());
    }
}

#[test]
fn lines_do_not_depend_on_earlier_calls() {
    let text = "a\n\nb\r\nc";
    let lines = ["a", "", "b", "c"];
    for batch in 1..7 {
        let (mut input, mut buf) = make_input(text);
        for _ in 0..8 {
            buf.read_more(input.take(batch));
            for n in 0..buf.len() {
                assert_eq!(buf.get_line(n), Some(lines[n]));
            }
        }
        assert_eq!(buf.lines, lines);
    }
}

// --- line endings and truncation ---

#[test]
fn carriage_return_without_newline_stays() {
    let (mut input, mut buf) = make_input("a\r\r\nb\r");
    read_rest(&mut buf, &mut input);
    assert_eq!(buf.lines, vec!["a\r", "b\r"]);
}

#[test]
fn long_line_truncated() {
    let long = "x".repeat(70_000);
    let content = format!("{}\n", long);
    let (mut input, mut buf) = make_input(&content);

    let line = get_line(&mut buf, &mut input, 0).unwrap();
    assert!(line.len() < 70_000);
    assert!(line.ends_with("[truncated]"));
}

#[test]
fn line_length_limit() {
    let fits = "x".repeat(65_536);
    let over = "x".repeat(65_537);
    let (mut input, mut buf) = make_input(&format!("{}\n{}\n", fits, over));
    read_rest(&mut buf, &mut input);
    assert_eq!(buf.lines[0], fits);
    assert_eq!(buf.lines[1], format!("{} [truncated]", fits));
}

#[test]
fn long_line_is_cut_between_characters() {
    let long = "日".repeat(30_000);
    let (mut input, mut buf) = make_input(&long);
    read_rest(&mut buf, &mut input);
    // 21845 characters of three bytes fit in 65536.
    assert_eq!(buf.lines[0], format!("{} [truncated]", "日".repeat(21_845)));
}

// --- poll_new_lines ---

#[test]
fn poll_resets_finished() {
    let (mut input, mut buf) = make_input("a\n");

    read_rest(&mut buf, &mut input);
    assert!(buf.is_finished());

    // poll_new_lines resets finished for follow mode
    buf.poll_new_lines(input.take(256));
    // finished gets reset to false, then read_more runs and hits EOF again
    assert!(buf.is_finished());
}

#[test]
fn poll_takes_in_what_was_appended() {
    let (mut input, mut buf) = make_input("a\n");
    read_rest(&mut buf, &mut input);
    input.text.push_str("b\nc\n");
    assert_eq!(buf.poll_new_lines(input.take(256)), 2);
    assert_eq!(buf.lines, vec!["a", "b", "c"]);
}

// =====================================================================
// prepopulate_buffer
// =====================================================================

#[test]
fn prepopulate_simple() {
    let mut lb = LineBuffer::from_lines(Vec::new());
    prepopulate_buffer(&mut lb, "line1\nline2\nline3\n");
    assert_eq!(lb.lines, vec!["line1", "line2", "line3"]);
}

#[test]
fn prepopulate_no_trailing_newline() {
    let mut lb = LineBuffer::from_lines(Vec::new());
    prepopulate_buffer(&mut lb, "line1\nline2");
    assert_eq!(lb.lines, vec!["line1", "line2"]);
}

#[test]
fn prepopulate_crlf() {
    let mut lb = LineBuffer::from_lines(Vec::new());
    prepopulate_buffer(&mut lb, "line1\r\nline2\r\n");
    assert_eq!(lb.lines, vec!["line1", "line2"]);
}

#[test]
fn prepopulate_single_line() {
    let mut lb = LineBuffer::from_lines(Vec::new());
    prepopulate_buffer(&mut lb, "just one line\n");
    assert_eq!(lb.lines, vec!["just one line"]);
}

#[test]
fn prepopulate_empty() {
    let mut lb = LineBuffer::from_lines(Vec::new());
    prepopulate_buffer(&mut lb, "");
    assert!(lb.lines.is_empty());
}

#[test]
fn prepopulate_blank_lines_and_bare_carriage_return() {
    let mut lb = LineBuffer::from_lines(vec!["zero".to_string()]);
    prepopulate_buffer(&mut lb, "a\n\nb\r\r\nc\r");
    assert_eq!(lb.lines, vec!["zero", "a", "", "b\r", "c"]);
}

use lz::cli::{
    history_path, line_of_bytes, open_file, open_stdin, parse_args, plan, Args, Plan, UsageError,
    HELP_TEXT, VERSION,
};
use lz::buffer::ReadOutcome;
use lz::terminal;
use lz::text;
use lz::width::display_width;
use lz::wrap;

fn args(argv: &[&str]) -> Result<Args, UsageError> {
    parse_args(&argv.iter().map(|s| s.to_string()).collect())
}

fn plan_of(argv: &[&str], tty: bool) -> String {
    match plan(&args(argv).unwrap_or_else(|e| panic!("{}", e.message())), tty) {
        Ok(Plan::ShowHelp) => "help".to_string(),
        Ok(Plan::ShowVersion) => "version".to_string(),
        Ok(Plan::Stdin) => "stdin".to_string(),
        Ok(Plan::File(name)) => format!("file {}", name),
        Err(e) => e.message(),
    }
}

#[test]
fn options() {
    let a = args(&["--follow", "--force", "-r", "name"]).ok().unwrap();
    assert!(a.follow && a.force && a.raw_mode);
    assert!(!a.stdin_explicit && !a.help && !a.version);
    assert_eq!(a.filename.as_deref(), Some("name"));
    let a = args(&["--raw", "-", "-h", "-V"]).ok().unwrap();
    assert!(a.raw_mode && a.stdin_explicit && a.help && a.version);
    assert!(!a.follow && !a.force);
    assert_eq!(a.filename, None);
    assert!(args(&["--help"]).ok().unwrap().help);
    assert!(args(&["--version"]).ok().unwrap().version);
}

#[test]
fn after_double_hyphen_there_are_only_files() {
    let a = args(&["--", "--follow"]).ok().unwrap();
    assert_eq!(a.filename.as_deref(), Some("--follow"));
    assert!(!a.follow);
    let a = args(&["--", "--"]).ok().unwrap();
    assert_eq!(a.filename.as_deref(), Some("--"));
}

#[test]
fn usage_errors() {
    assert_eq!(args(&["a", "b"]).err().unwrap().message(), "lz: too many arguments");
    assert_eq!(args(&["a", "--", "b"]).err().unwrap().message(), "lz: too many arguments");
    assert_eq!(args(&["-x"]).err().unwrap().message(), "lz: unknown option: -x");
    // The first mistake is told.
    assert_eq!(args(&["--no", "a", "b"]).err().unwrap().message(), "lz: unknown option: --no");
    assert_eq!(args(&["a", "b", "--no"]).err().unwrap().message(), "lz: too many arguments");
}

#[test]
fn plans() {
    assert_eq!(plan_of(&["-h", "-V", "f"], false), "help");
    assert_eq!(plan_of(&["-V", "f"], false), "version");
    assert_eq!(plan_of(&["f"], true), "file f");
    assert_eq!(plan_of(&["f", "-"], true), "stdin");
    assert_eq!(plan_of(&["-"], true), "stdin");
    assert_eq!(plan_of(&[], false), "stdin");
    assert_eq!(plan_of(&[], true), "lz: missing filename (use '-' for stdin)");
}

#[test]
fn opening_the_standard_input() {
    let (lb, rest) = open_stdin(b"a\r\n\nb", false).ok().unwrap().unwrap();
    assert_eq!(lb.lines, vec!["a", ""]);
    assert_eq!(rest, b"b");
    assert!(!lb.is_finished());
    assert!(open_stdin(b"", false).ok().unwrap().is_none());
    assert!(open_stdin(b"", true).ok().unwrap().is_none());
    assert_eq!(
        open_stdin(b"a\0b", false).err().unwrap(),
        "Binary content detected. Use --force to view."
    );
    let (lb, rest) = open_stdin(b"a\0\nb", true).ok().unwrap().unwrap();
    assert!(lb.lines.is_empty());
    assert_eq!(rest, b"a\0\nb");
    let (lb, rest) = open_stdin(b"a\xffb\n", false).ok().unwrap().unwrap();
    assert_eq!(lb.lines, vec!["a\u{fffd}b"]);
    assert!(rest.is_empty());
}

#[test]
fn no_line_of_the_standard_input_is_split() {
    let text = "日".repeat(4000) + "\nsecond\nthird";
    let bytes = text.as_bytes();
    for cut in [1, 8192, 12_000, 12_001, 12_005, bytes.len()] {
        for force in [false, true] {
            let (mut lb, mut rest) = open_stdin(&bytes[..cut], force).ok().unwrap().unwrap();
            rest.extend_from_slice(&bytes[cut..]);
            let left = String::from_utf8(rest).unwrap();
            let reads = left.split_inclusive('\n').map(|l| line_of_bytes(l.as_bytes()));
            lb.read_more(reads.chain([line_of_bytes(b"")]).collect());
            assert!(lb.is_finished());
            assert_eq!(lb.lines, text.split('\n').collect::<Vec<_>>());
        }
    }
}

#[test]
fn lines_of_bytes() {
    assert!(matches!(line_of_bytes(b""), ReadOutcome::Eof));
    assert!(matches!(line_of_bytes("é\n".as_bytes()), ReadOutcome::Line(s) if s == "é\n"));
    assert!(matches!(line_of_bytes(b"a\xff"), ReadOutcome::Line(s) if s == "a\u{fffd}"));
}

#[test]
fn opening_a_file() {
    let lb = open_file(b"abc", 3, false).ok().unwrap().unwrap();
    assert!(lb.lines.is_empty() && !lb.is_finished());
    assert!(open_file(b"", 0, false).ok().unwrap().is_none());
    assert!(open_file(b"", 0, true).ok().unwrap().is_none());
    assert_eq!(
        open_file(b"\0", 1, false).err().unwrap(),
        "Binary file detected. Use --force to view."
    );
    assert!(open_file(b"\0", 1, true).ok().unwrap().is_some());
}

#[test]
fn history_paths() {
    assert_eq!(history_path(Some("/x"), Some("/home/u")), "/x/lz/history");
    assert_eq!(history_path(Some("/x/"), None), "/x/lz/history");
    assert_eq!(history_path(Some(""), None), "lz/history");
    assert_eq!(history_path(None, Some("/home/u")), "/home/u/.local/state/lz/history");
    assert_eq!(history_path(None, None), "~/.local/state/lz/history");
}

#[test]
fn help_and_version_texts() {
    assert!(HELP_TEXT.starts_with(&format!("lz {} — a minimal pager\n\nUSAGE: lz [OPTIONS] [FILE]", VERSION)));
    assert!(HELP_TEXT.ends_with("File to view. If omitted or '-', reads stdin."));
}

// --- the terminal ---

#[test]
fn control_sequences() {
    let mut buf = Vec::new();
    terminal::enter_alt_screen(&mut buf);
    terminal::hide_cursor(&mut buf);
    terminal::move_cursor(&mut buf, 0, 9);
    terminal::move_cursor(&mut buf, 65534, 99);
    terminal::clear_line(&mut buf);
    terminal::show_cursor(&mut buf);
    terminal::leave_alt_screen(&mut buf);
    assert_eq!(
        String::from_utf8(buf).unwrap(),
        "\x1b[?1049h\x1b[?25l\x1b[1;10H\x1b[65535;100H\x1b[K\x1b[?25h\x1b[?1049l"
    );
}

#[test]
fn terminal_sizes() {
    assert_eq!(terminal::get_terminal_size(Some((50, 132))), (132, 50));
    assert_eq!(terminal::get_terminal_size(Some((0, 132))), (80, 24));
    assert_eq!(terminal::get_terminal_size(Some((50, 0))), (80, 24));
    assert_eq!(terminal::get_terminal_size(None), (80, 24));
}

#[test]
fn raw_settings() {
    let t = terminal::Termios {
        c_iflag: u64::MAX,
        c_oflag: u64::MAX,
        c_cflag: 1,
        c_lflag: u64::MAX,
        c_cc: [9; 20],
        c_ispeed: 5,
        c_ospeed: 6,
    }
    .raw();
    assert_eq!(t.c_iflag, !(0x02 | 0x100 | 0x10 | 0x20 | 0x200));
    assert_eq!(t.c_oflag, !0x01);
    assert_eq!(t.c_cflag, 0x301);
    assert_eq!(t.c_lflag, !(0x08 | 0x100 | 0x400 | 0x80));
    assert_eq!((t.c_cc[15], t.c_cc[16], t.c_cc[17], t.c_cc[18]), (9, 1, 0, 9));
    assert_eq!((t.c_ispeed, t.c_ospeed), (5, 6));
}

// --- text, widths and rows ---

#[test]
fn text_helpers() {
    assert_eq!(text::chars_of("aé"), vec!['a', 'é']);
    assert_eq!(text::string_of(&['a', 'é', 'b'], 1, 3), "éb");
    assert!(text::same_text("日", "日"));
    assert!(!text::same_text("日", "本"));
    assert!(!text::same_text("a", "ab"));
    assert_eq!(text::split_lines("a\nb\r\n\nc\r", false), vec!["a", "b", "", "c\r"]);
    assert_eq!(text::split_lines("a\nb\r\n\nc\r", true), vec!["a", "b", "", "c"]);
    assert!(text::split_lines("", true).is_empty());
}

#[test]
fn widths() {
    assert_eq!(display_width(""), 0);
    assert_eq!(display_width("ab\t"), 2);
    assert_eq!(display_width("日本"), 4);
    assert_eq!(wrap::columns_of("\x1b[1mab", false), 2);
    assert_eq!(wrap::columns_of("\x1b[1mab", true), 6);
    assert_eq!(wrap::columns_of("日本", true), 4);
}

#[test]
fn rows() {
    assert_eq!(wrap::rows_needed(0, 10), 1);
    assert_eq!(wrap::rows_needed(1, 10), 1);
    assert_eq!(wrap::rows_needed(10, 10), 1);
    assert_eq!(wrap::rows_needed(11, 10), 2);
    assert_eq!(wrap::rows_needed(usize::MAX, 1), usize::MAX);
}

use lz::buffer::LineBuffer;
use lz::history::SearchHistory;
use lz::input::Key;
use lz::pager::Pager;
use lz::render::highlight;
use lz::state::Step;

fn pager_of(lines: &[&str], name: Option<&str>, width: u16, height: u16) -> Pager {
    let buffer = LineBuffer::from_lines(lines.iter().map(|s| s.to_string()).collect());
    let name = name.map(|s| s.to_string());
    Pager::new(buffer, false, false, name, SearchHistory::load(None), (width, height))
}

fn press(p: &mut Pager, keys: &[Key]) {
    for &k in keys {
        assert_eq!(p.handle_key(k), Step::Continue);
    }
}

fn type_text(p: &mut Pager, s: &str) {
    for c in s.chars() {
        press(p, &[Key::Char(c)]);
    }
}

fn screen(p: &Pager) -> String {
    assert!(p.can_render());
    String::from_utf8(p.render()).unwrap()
}

#[test]
fn frame_of_a_short_file() {
    let p = pager_of(&["ab", "cdefghijklmn"], Some("f"), 12, 4);
    assert_eq!(
        screen(&p),
        "\x1b[?25l\x1b[1;1H\
         \x1b[1;1Hab\x1b[K\
         \x1b[2;1Hcdefghijklmn\x1b[K\
         \x1b[3;1H~\x1b[K\
         \x1b[4;1H\x1b[7mf   lz 0.1.0\x1b[m"
    );
}

#[test]
fn frame_from_a_column_on() {
    let mut p = pager_of(&["0123456789abcdef"], None, 10, 2);
    press(&mut p, &[Key::Right]);
    assert_eq!(
        screen(&p),
        "\x1b[?25l\x1b[1;1H\x1b[1;1H89abcdef\x1b[K\x1b[2;1H\x1b[7m: lz 0.1.0\x1b[m"
    );
}

#[test]
fn frame_with_wrapping() {
    let mut p = pager_of(&["0123456789abcdef", "x"], None, 10, 5);
    press(&mut p, &[Key::Char('w')]);
    assert_eq!(
        screen(&p),
        "\x1b[?25l\x1b[1;1H\
         \x1b[1;1H0123456789\x1b[K\
         \x1b[2;1Habcdef\x1b[K\
         \x1b[3;1Hx\x1b[K\
         \x1b[4;1H~\x1b[K\
         \x1b[5;1H\x1b[7m[wrap]    \x1b[m"
    );
}

#[test]
fn wrapped_line_is_cut_by_the_screen() {
    let mut p = pager_of(&["0123456789abcdef"], None, 4, 3);
    press(&mut p, &[Key::Char('w')]);
    assert_eq!(
        screen(&p),
        "\x1b[?25l\x1b[1;1H\
         \x1b[1;1H0123\x1b[K\
         \x1b[2;1H4567\x1b[K\
         \x1b[3;1H\x1b[7m[wra\x1b[m"
    );
}

#[test]
fn matches_are_marked() {
    let mut p = pager_of(&["a foo b foo", "bar"], None, 20, 3);
    press(&mut p, &[Key::Char('/')]);
    type_text(&mut p, "foo");
    press(&mut p, &[Key::Enter]);
    assert!(screen(&p).contains(
        "\x1b[1;1Ha \x1b[30;43mfoo\x1b[m b \x1b[30;43mfoo\x1b[m\x1b[K\x1b[2;1Hbar\x1b[K"
    ));
}

#[test]
fn matches_are_marked_in_every_row() {
    let mut p = pager_of(&["aaaaaaaaaaz"], None, 10, 3);
    press(&mut p, &[Key::Char('w'), Key::Char('/'), Key::Char('z'), Key::Enter]);
    assert!(screen(&p).contains(
        "\x1b[1;1Haaaaaaaaaa\x1b[K\x1b[2;1H\x1b[30;43mz\x1b[m\x1b[K"
    ));
}

#[test]
fn colours_give_way_to_marks() {
    let mut p = pager_of(&["\x1b[31mfoo\x1b[m \x1b[32mx", "\x1b[31mbar"], None, 20, 3);
    press(&mut p, &[Key::Char('/')]);
    type_text(&mut p, "foo");
    press(&mut p, &[Key::Enter]);
    let s = screen(&p);
    assert!(s.contains("\x1b[1;1H\x1b[30;43mfoo\x1b[m x\x1b[K"));
    assert!(s.contains("\x1b[2;1H\x1b[31mbar\x1b[m\x1b[K"));
}

#[test]
fn match_out_of_sight_is_not_marked() {
    let mut p = pager_of(&["0123456789foo"], None, 10, 2);
    press(&mut p, &[Key::Char('/')]);
    type_text(&mut p, "foo");
    press(&mut p, &[Key::Enter]);
    assert!(screen(&p).contains("\x1b[1;1H0123456789\x1b[K"));
}

#[test]
fn highlight_adds_only_marks() {
    let mut buf = b">".to_vec();
    highlight(&mut buf, "日本語", &vec![(0, 3), (3, 6)]);
    let s = String::from_utf8(buf).unwrap();
    assert_eq!(s, ">\x1b[30;43m日\x1b[m\x1b[30;43m本\x1b[m語");
    assert_eq!(lz::ansi::strip_ansi(&s), ">日本語");
}

#[test]
fn filtered_lines_are_shown() {
    let mut p = pager_of(&["one", "two", "three"], Some("f"), 20, 4);
    press(&mut p, &[Key::Char('&')]);
    type_text(&mut p, "o");
    assert!(screen(&p).contains("\x1b[7m&o          lz 0.1.0\x1b[m"));
    press(&mut p, &[Key::Enter]);
    assert_eq!(
        screen(&p),
        "\x1b[?25l\x1b[1;1H\
         \x1b[1;1Hone\x1b[K\
         \x1b[2;1Htwo\x1b[K\
         \x1b[3;1H~\x1b[K\
         \x1b[4;1H\x1b[7mf [&o]      lz 0.1.0\x1b[m"
    );
}

#[test]
fn help_screen_is_cut() {
    let mut p = pager_of(&["x"], None, 9, 4);
    press(&mut p, &[Key::Char('h')]);
    assert_eq!(
        screen(&p),
        "\x1b[?25l\x1b[1;1H\
         \x1b[1;1H\x1b[K\
         \x1b[2;1H  NAVIGAT\x1b[K\
         \x1b[3;1H    j / D\x1b[K\
         \x1b[4;1H\x1b[7mh: return\x1b[m"
    );
}

#[test]
fn help_screen_has_all_keys() {
    let mut p = pager_of(&["x"], None, 80, 30);
    press(&mut p, &[Key::Char('h')]);
    let s = screen(&p);
    for line in [
        "\x1b[3;1H    j / Down / Enter   Scroll down one line\x1b[K",
        "\x1b[11;1H    Left / Right       Horizontal scroll\x1b[K\x1b[12;1H\x1b[K",
        "\x1b[13;1H  SEARCH\x1b[K",
        "\x1b[24;1H    q / Esc            Quit\x1b[K\x1b[25;1H\x1b[K",
    ] {
        assert!(s.contains(line));
    }
}

#[test]
fn status_texts() {
    let mut p = pager_of(&["x"], None, 80, 5);
    assert_eq!(p.build_status(), ":");
    p.filename = Some("name".to_string());
    assert_eq!(p.build_status(), "name");
    p.wrap = true;
    assert_eq!(p.build_status(), "name [wrap]");
    press(&mut p, &[Key::Char('&'), Key::Char('x'), Key::Enter]);
    assert_eq!(p.build_status(), "name [&x] [wrap]");
    p.filename = None;
    assert_eq!(p.build_status(), "[&x] [wrap]");
    press(&mut p, &[Key::Char('/'), Key::Char('y')]);
    assert_eq!(p.build_status(), "/y");
    press(&mut p, &[Key::Escape, Key::Char('?'), Key::Char('y'), Key::Enter]);
    assert_eq!(p.build_status(), "Pattern not found");
    press(&mut p, &[Key::Char('?'), Key::Char('z')]);
    assert_eq!(p.build_status(), "?z");
    press(&mut p, &[Key::Escape, Key::Char('h')]);
    assert_eq!(p.build_status(), "h: return");
    press(&mut p, &[Key::Escape, Key::Char('F')]);
    assert_eq!(p.build_status(), "Waiting for data...");
}

#[test]
fn status_bar_fills_the_screen() {
    for w in 1..30u16 {
        let p = pager_of(&["x"], Some("some name"), w, 2);
        let s = screen(&p);
        let bar = &s[s.find("\x1b[7m").unwrap() + 4..s.len() - 3];
        assert_eq!(bar.len(), w as usize);
        assert_eq!(bar.ends_with("lz 0.1.0"), w > 17);
    }
}

#[test]
fn status_bar_is_not_cut_within_a_character() {
    let p = pager_of(&["x"], Some("aé"), 2, 2);
    assert!(!p.can_render());
    let p = pager_of(&["x"], Some("aé"), 3, 2);
    assert!(p.can_render());
    let p = pager_of(&["x"], Some("aé"), 1, 2);
    assert!(p.can_render());
}

#[test]
fn status_row_of_a_single_row() {
    let p = pager_of(&["x"], None, 3, 1);
    assert_eq!(screen(&p), "\x1b[?25l\x1b[1;1H\x1b[1;1Hx\x1b[K\x1b[1;1H\x1b[7m:  \x1b[m");
}

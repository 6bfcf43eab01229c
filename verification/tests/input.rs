use lz::input::{parse_byte, parse_keys_from_bytes, Key, KeyReader};

// =====================================================================
// Key parsing from raw bytes
// =====================================================================

#[test]
fn parse_ascii_chars() {
    let keys = parse_keys_from_bytes(b"abc");
    assert_eq!(keys, vec![Key::Char('a'), Key::Char('b'), Key::Char('c')]);
}

#[test]
fn parse_enter() {
    let keys = parse_keys_from_bytes(b"\r");
    assert_eq!(keys, vec![Key::Enter]);

    let keys = parse_keys_from_bytes(b"\n");
    assert_eq!(keys, vec![Key::Enter]);
}

#[test]
fn parse_backspace() {
    let keys = parse_keys_from_bytes(b"\x7f");
    assert_eq!(keys, vec![Key::Backspace]);

    let keys = parse_keys_from_bytes(b"\x08");
    assert_eq!(keys, vec![Key::Backspace]);
}

#[test]
fn parse_ctrl_keys() {
    // Ctrl-A = 0x01, Ctrl-C = 0x03, Ctrl-D = 0x04
    let keys = parse_keys_from_bytes(b"\x01");
    assert_eq!(keys, vec![Key::Ctrl('a')]);

    let keys = parse_keys_from_bytes(b"\x03");
    assert_eq!(keys, vec![Key::Ctrl('c')]);

    let keys = parse_keys_from_bytes(b"\x04");
    assert_eq!(keys, vec![Key::Ctrl('d')]);
}

#[test]
fn parse_arrow_keys() {
    let keys = parse_keys_from_bytes(b"\x1b[A");
    assert_eq!(keys, vec![Key::Up]);

    let keys = parse_keys_from_bytes(b"\x1b[B");
    assert_eq!(keys, vec![Key::Down]);

    let keys = parse_keys_from_bytes(b"\x1b[C");
    assert_eq!(keys, vec![Key::Right]);

    let keys = parse_keys_from_bytes(b"\x1b[D");
    assert_eq!(keys, vec![Key::Left]);
}

#[test]
fn parse_home_end() {
    let keys = parse_keys_from_bytes(b"\x1b[H");
    assert_eq!(keys, vec![Key::Home]);

    let keys = parse_keys_from_bytes(b"\x1b[F");
    assert_eq!(keys, vec![Key::End]);
}

#[test]
fn parse_page_up_down() {
    let keys = parse_keys_from_bytes(b"\x1b[5~");
    assert_eq!(keys, vec![Key::PageUp]);

    let keys = parse_keys_from_bytes(b"\x1b[6~");
    assert_eq!(keys, vec![Key::PageDown]);
}

#[test]
fn parse_delete() {
    let keys = parse_keys_from_bytes(b"\x1b[3~");
    assert_eq!(keys, vec![Key::Delete]);
}

#[test]
fn parse_ss3_arrows() {
    let keys = parse_keys_from_bytes(b"\x1bOA");
    assert_eq!(keys, vec![Key::Up]);

    let keys = parse_keys_from_bytes(b"\x1bOB");
    assert_eq!(keys, vec![Key::Down]);
}

#[test]
fn parse_multiple_keys_in_sequence() {
    let keys = parse_keys_from_bytes(b"q\x1b[A\x1b[Bj");
    assert_eq!(keys, vec![Key::Char('q'), Key::Up, Key::Down, Key::Char('j')]);
}

#[test]
fn parse_home_end_numeric_variants() {
    // ESC [ 1 ~ = Home, ESC [ 4 ~ = End
    let keys = parse_keys_from_bytes(b"\x1b[1~");
    assert_eq!(keys, vec![Key::Home]);

    let keys = parse_keys_from_bytes(b"\x1b[4~");
    assert_eq!(keys, vec![Key::End]);

    // ESC [ 7 ~ = Home, ESC [ 8 ~ = End (rxvt style)
    let keys = parse_keys_from_bytes(b"\x1b[7~");
    assert_eq!(keys, vec![Key::Home]);

    let keys = parse_keys_from_bytes(b"\x1b[8~");
    assert_eq!(keys, vec![Key::End]);
}

#[test]
fn parse_modified_arrows_consumed() {
    // ESC [ 1 ; 5 A = Ctrl+Up — should be consumed as Unknown
    let keys = parse_keys_from_bytes(b"\x1b[1;5A");
    assert_eq!(keys, vec![Key::Unknown]);
}

#[test]
fn parse_utf8_char() {
    // é = 0xc3 0xa9
    let keys = parse_keys_from_bytes(&[0xc3, 0xa9]);
    assert_eq!(keys, vec![Key::Char('é')]);

    // 日 = 0xe6 0x97 0xa5
    let keys = parse_keys_from_bytes(&[0xe6, 0x97, 0xa5]);
    assert_eq!(keys, vec![Key::Char('日')]);
}

#[test]
fn parse_other_control_bytes() {
    assert_eq!(
        parse_keys_from_bytes(&[0x00, 0x1a, 0x1c]),
        vec![Key::Ctrl('`'), Key::Ctrl('z'), Key::Char('\x1c')]
    );
}

#[test]
fn parse_escape_alone_and_before_others() {
    assert_eq!(parse_keys_from_bytes(b"\x1b"), vec![Key::Escape]);
    assert_eq!(parse_keys_from_bytes(b"\x1bxy"), vec![Key::Escape, Key::Char('y')]);
}

#[test]
fn parse_unfinished_sequences() {
    assert_eq!(parse_keys_from_bytes(b"\x1b["), vec![Key::Unknown]);
    assert_eq!(parse_keys_from_bytes(b"\x1b[12"), vec![Key::Unknown]);
    assert_eq!(parse_keys_from_bytes(b"\x1b[1;5"), vec![Key::Unknown]);
    assert_eq!(parse_keys_from_bytes(b"\x1bO"), vec![Key::Unknown]);
}

#[test]
fn parse_numbered_sequences() {
    assert_eq!(parse_keys_from_bytes(b"\x1b[2~"), vec![Key::Unknown]);
    assert_eq!(parse_keys_from_bytes(b"\x1b[15~"), vec![Key::Unknown]);
    assert_eq!(parse_keys_from_bytes(b"\x1b[1A"), vec![Key::Up]);
    assert_eq!(parse_keys_from_bytes(b"\x1b[03~"), vec![Key::Delete]);
    assert_eq!(parse_keys_from_bytes(b"\x1b[4294967299~q"), vec![Key::Unknown, Key::Char('q')]);
}

#[test]
fn parse_ss3_and_csi_letters() {
    assert_eq!(
        parse_keys_from_bytes(b"\x1bOC\x1bOD\x1bOH\x1bOF\x1bOx\x1b[x"),
        vec![Key::Right, Key::Left, Key::Home, Key::End, Key::Unknown, Key::Unknown]
    );
}

#[test]
fn parse_invalid_utf8() {
    let bad = Key::Char('\u{fffd}');
    assert_eq!(parse_keys_from_bytes(&[0x80, b'a']), vec![bad, Key::Char('a')]);
    assert_eq!(parse_keys_from_bytes(&[0xff]), vec![bad]);
    assert_eq!(parse_keys_from_bytes(&[0xc3, b'a']), vec![bad]);
    assert_eq!(parse_keys_from_bytes(&[0xe6, 0x97]), vec![bad]);
    assert_eq!(parse_keys_from_bytes(&[0xed, 0xa0, 0x80]), vec![bad]);
    assert_eq!(parse_keys_from_bytes(&[0xf0, 0x9f, 0x98, 0x80]), vec![Key::Char('😀')]);
}

#[test]
fn parse_byte_tells_whether_more_may_follow() {
    let p = parse_byte(b"\x1b[", 0);
    assert_eq!((p.key, p.end, p.waits), (Key::Unknown, 2, true));
    let p = parse_byte(b"x\x1b[A", 1);
    assert_eq!((p.key, p.end, p.waits), (Key::Up, 4, false));
}

#[test]
fn reader_waits_for_the_rest_of_a_key() {
    let mut r = KeyReader::new();
    assert!(!r.is_waiting());
    assert_eq!(r.next_key(false), None);
    assert_eq!(r.next_key(true), None);
    r.feed(b"\x1b");
    assert_eq!(r.next_key(false), None);
    assert!(r.is_waiting());
    r.feed(b"[");
    assert_eq!(r.next_key(false), None);
    r.feed(b"Aq");
    assert_eq!(r.next_key(false), Some(Key::Up));
    assert_eq!(r.next_key(false), Some(Key::Char('q')));
    assert_eq!(r.next_key(false), None);
    r.feed(b"\x1b");
    assert_eq!(r.next_key(true), Some(Key::Escape));
    assert!(!r.is_waiting());
}

#[test]
fn keys_do_not_depend_on_pieces() {
    let bytes = "aé\x1b[5~日\x1bOB".as_bytes();
    let whole = parse_keys_from_bytes(bytes);
    for cut in 0..bytes.len() {
        let mut r = KeyReader::new();
        let mut keys = Vec::new();
        r.feed(&bytes[..cut]);
        while let Some(k) = r.next_key(false) {
            keys.push(k);
        }
        r.feed(&bytes[cut..]);
        while let Some(k) = r.next_key(true) {
            keys.push(k);
        }
        assert_eq!(keys, whole);
    }
}

#[test]
fn typed_characters_come_back() {
    for c in ['~', ' ', '\u{80}', 'ß', '日', '\u{10ffff}'] {
        let s = c.to_string();
        assert_eq!(parse_keys_from_bytes(s.as_bytes()), vec![Key::Char(c)]);
    }
}

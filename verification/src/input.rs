//! Keys, and the bytes that a terminal sends for them.
use crate::terminal;
use crate::text;
use vstd::prelude::*;
use vstd::utf8::*;

verus! {

/// A key that was pressed.
#[derive(Debug, Clone, Copy, PartialEq, Eq, Structural)]
pub enum Key {
    Char(char),
    Ctrl(char),
    Escape,
    Up,
    Down,
    Left,
    Right,
    PageUp,
    PageDown,
    Home,
    End,
    Backspace,
    Delete,
    Enter,
    Unknown,
}

/// How long to wait for the next byte of a key, in milliseconds.
pub const BYTE_TIMEOUT_MS: i32 = 50;

/// What stands for a character that is not valid.
pub const REPLACEMENT: char = '\u{fffd}';

/// `std::str::Utf8Error`, which tells where bytes are not valid UTF-8.
#[verifier::external_type_specification]
#[verifier::external_body]
pub struct ExUtf8Error(std::str::Utf8Error);

/// `std::str::from_utf8` gives the string that the bytes encode, or an error if
/// they are not valid UTF-8.
pub assume_specification[ std::str::from_utf8 ](v: &[u8]) -> (r: Result<
    &str,
    std::str::Utf8Error,
>)
    ensures
        match r {
            Ok(s) => valid_utf8(v@) && encode_utf8(s@) == v@,
            Err(_) => !valid_utf8(v@),
        },
;

/// A key that was read from bytes.
pub struct KeyAt {
    pub key: Key,
    /// Where its bytes end.
    pub end: int,
    /// Whether it was taken for what it is only because no more bytes came.
    pub waits: bool,
}

/// A key whose bytes end at `end`.
pub open spec fn whole(key: Key, end: int) -> KeyAt {
    KeyAt { key, end, waits: false }
}

/// A key that the end of the bytes cuts short.
pub open spec fn cut_short(key: Key, bytes: Seq<u8>) -> KeyAt {
    KeyAt { key, end: bytes.len() as int, waits: true }
}

/// The key that a final letter of a control sequence stands for.
pub open spec fn letter_key(b: u8) -> Key {
    if b == 0x41 {
        Key::Up
    } else if b == 0x42 {
        Key::Down
    } else if b == 0x43 {
        Key::Right
    } else if b == 0x44 {
        Key::Left
    } else if b == 0x48 {
        Key::Home
    } else if b == 0x46 {
        Key::End
    } else {
        Key::Unknown
    }
}

/// The key that a number before a tilde stands for.
pub open spec fn number_key(n: nat) -> Key {
    if n == 1 || n == 7 {
        Key::Home
    } else if n == 3 {
        Key::Delete
    } else if n == 4 || n == 8 {
        Key::End
    } else if n == 5 {
        Key::PageUp
    } else if n == 6 {
        Key::PageDown
    } else {
        Key::Unknown
    }
}

/// Whether a byte is a decimal digit.
pub open spec fn is_digit(b: u8) -> bool {
    0x30 <= b <= 0x39
}

/// The rest of a control sequence with a semicolon, up to its final byte.
pub open spec fn csi_rest(bytes: Seq<u8>, i: int) -> KeyAt
    decreases bytes.len() - i,
{
    if i < 0 || i >= bytes.len() {
        cut_short(Key::Unknown, bytes)
    } else if 0x40 <= bytes[i] <= 0x7e {
        whole(Key::Unknown, i + 1)
    } else {
        csi_rest(bytes, i + 1)
    }
}

/// A control sequence after the digits of `n`.
pub open spec fn csi_number(bytes: Seq<u8>, i: int, n: nat) -> KeyAt
    decreases bytes.len() - i,
{
    if i < 0 || i >= bytes.len() {
        cut_short(Key::Unknown, bytes)
    } else {
        let b = bytes[i];
        if b == 0x7e {
            whole(number_key(n), i + 1)
        } else if b == 0x3b {
            csi_rest(bytes, i + 1)
        } else if is_digit(b) {
            csi_number(bytes, i + 1, n * 10 + (b - 0x30) as nat)
        } else {
            whole(letter_key(b), i + 1)
        }
    }
}

/// A control sequence after ESC and `[`.
pub open spec fn csi_key(bytes: Seq<u8>, i: int) -> KeyAt {
    if i >= bytes.len() {
        cut_short(Key::Unknown, bytes)
    } else if is_digit(bytes[i]) {
        csi_number(bytes, i + 1, (bytes[i] - 0x30) as nat)
    } else {
        whole(letter_key(bytes[i]), i + 1)
    }
}

/// A sequence after ESC and `O`.
pub open spec fn ss3_key(bytes: Seq<u8>, i: int) -> KeyAt {
    if i >= bytes.len() {
        cut_short(Key::Unknown, bytes)
    } else {
        whole(letter_key(bytes[i]), i + 1)
    }
}

/// What follows an ESC.
pub open spec fn escape_key(bytes: Seq<u8>, i: int) -> KeyAt {
    if i >= bytes.len() {
        cut_short(Key::Escape, bytes)
    } else if bytes[i] == 0x5b {
        csi_key(bytes, i + 1)
    } else if bytes[i] == 0x4f {
        ss3_key(bytes, i + 1)
    } else {
        whole(Key::Escape, i + 1)
    }
}

/// How many bytes a character has, by its first; 0 if none begins so.
pub open spec fn utf8_width(first: u8) -> int {
    if first <= 0x7f {
        1
    } else if 0xc0 <= first <= 0xdf {
        2
    } else if 0xe0 <= first <= 0xef {
        3
    } else if 0xf0 <= first <= 0xf7 {
        4
    } else {
        0
    }
}

/// The character that bytes encode.
pub open spec fn decoded_char(bytes: Seq<u8>) -> char {
    if valid_utf8(bytes) {
        decode_utf8(bytes)[0]
    } else {
        REPLACEMENT
    }
}

/// The character that begins at `i`.
pub open spec fn char_key(bytes: Seq<u8>, i: int) -> KeyAt {
    let w = utf8_width(bytes[i]);
    if w == 0 {
        whole(Key::Char(REPLACEMENT), i + 1)
    } else if w == 1 {
        whole(Key::Char(bytes[i] as char), i + 1)
    } else if i + w > bytes.len() {
        cut_short(Key::Char(REPLACEMENT), bytes)
    } else {
        whole(Key::Char(decoded_char(bytes.subrange(i, i + w))), i + w)
    }
}

/// The key that begins at `i`.
pub open spec fn key_at(bytes: Seq<u8>, i: int) -> KeyAt {
    let b = bytes[i];
    if b == 0x1b {
        escape_key(bytes, i + 1)
    } else if b == 0x0d || b == 0x0a {
        whole(Key::Enter, i + 1)
    } else if b == 0x7f || b == 0x08 {
        whole(Key::Backspace, i + 1)
    } else if b <= 0x1a {
        whole(Key::Ctrl((b + 0x60) as char), i + 1)
    } else {
        char_key(bytes, i)
    }
}

/// The keys that bytes stand for, when nothing comes after them.
pub open spec fn keys_of(bytes: Seq<u8>) -> Seq<Key>
    decreases bytes.len(),
{
    if bytes.len() == 0 {
        Seq::empty()
    } else {
        proof {
            lemma_key_end(bytes, 0);
        }
        let k = key_at(bytes, 0);
        seq![k.key] + keys_of(bytes.skip(k.end))
    }
}

/// The rest of a control sequence ends within the bytes.
proof fn lemma_csi_rest_end(bytes: Seq<u8>, i: int)
    requires
        0 <= i <= bytes.len(),
    ensures
        i <= csi_rest(bytes, i).end <= bytes.len(),
        csi_rest(bytes, i).waits ==> csi_rest(bytes, i).end == bytes.len(),
    decreases bytes.len() - i,
{
    if i < bytes.len() && !(0x40 <= bytes[i] <= 0x7e) {
        lemma_csi_rest_end(bytes, i + 1);
    }
}

/// A control sequence with a number ends within the bytes.
proof fn lemma_csi_number_end(bytes: Seq<u8>, i: int, n: nat)
    requires
        0 <= i <= bytes.len(),
    ensures
        i <= csi_number(bytes, i, n).end <= bytes.len(),
        csi_number(bytes, i, n).waits ==> csi_number(bytes, i, n).end == bytes.len(),
    decreases bytes.len() - i,
{
    if i < bytes.len() {
        lemma_csi_rest_end(bytes, i + 1);
        lemma_csi_number_end(bytes, i + 1, n * 10 + (bytes[i] - 0x30) as nat);
    }
}

/// A key takes at least one byte, and only bytes that are there.
pub proof fn lemma_key_end(bytes: Seq<u8>, i: int)
    requires
        0 <= i < bytes.len(),
    ensures
        i < key_at(bytes, i).end <= bytes.len(),
        key_at(bytes, i).waits ==> key_at(bytes, i).end == bytes.len(),
{
    if i + 2 < bytes.len() {
        lemma_csi_number_end(bytes, i + 3, (bytes[i + 2] - 0x30) as nat);
    }
}

proof fn lemma_csi_rest_more(bytes: Seq<u8>, more: Seq<u8>, i: int)
    requires
        0 <= i <= bytes.len(),
        !csi_rest(bytes, i).waits,
    ensures
        csi_rest(bytes + more, i) == csi_rest(bytes, i),
    decreases bytes.len() - i,
{
    assert((bytes + more)[i] == bytes[i]);
    if !(0x40 <= bytes[i] <= 0x7e) {
        lemma_csi_rest_more(bytes, more, i + 1);
    }
}

proof fn lemma_csi_number_more(bytes: Seq<u8>, more: Seq<u8>, i: int, n: nat)
    requires
        0 <= i <= bytes.len(),
        !csi_number(bytes, i, n).waits,
    ensures
        csi_number(bytes + more, i, n) == csi_number(bytes, i, n),
    decreases bytes.len() - i,
{
    let b = bytes[i];
    assert((bytes + more)[i] == b);
    if b == 0x3b {
        lemma_csi_rest_more(bytes, more, i + 1);
    } else if b != 0x7e && is_digit(b) {
        lemma_csi_number_more(bytes, more, i + 1, n * 10 + (b - 0x30) as nat);
    }
}

/// A key that did not have to wait is not changed by the bytes that follow it.
pub proof fn law_key_is_final(bytes: Seq<u8>, more: Seq<u8>, i: int)
    requires
        0 <= i < bytes.len(),
        !key_at(bytes, i).waits,
    ensures
        key_at(bytes + more, i) == key_at(bytes, i),
{
    let all = bytes + more;
    assert(all[i] == bytes[i]);
    if bytes[i] == 0x1b {
        assert(all[i + 1] == bytes[i + 1]);
        if bytes[i + 1] == 0x5b {
            assert(all[i + 2] == bytes[i + 2]);
            if is_digit(bytes[i + 2]) {
                lemma_csi_number_more(bytes, more, i + 3, (bytes[i + 2] - 0x30) as nat);
            }
        } else if bytes[i + 1] == 0x4f {
            assert(all[i + 2] == bytes[i + 2]);
        }
    } else {
        let w = utf8_width(bytes[i]);
        if i + w <= bytes.len() {
            assert(all.subrange(i, i + w) =~= bytes.subrange(i, i + w));
        }
    }
}

/// Keys do not depend on the pieces that their bytes come in: as long as the last
/// key of a piece did not have to wait, the pieces can be read one after the other.
pub proof fn law_keys_in_pieces(a: Seq<u8>, b: Seq<u8>)
    requires
        settled(a),
    ensures
        keys_of(a + b) == keys_of(a) + keys_of(b),
    decreases a.len(),
{
    if a.len() == 0 {
        assert(a + b =~= b);
        assert(keys_of(a) + keys_of(b) =~= keys_of(b));
    } else {
        lemma_key_end(a, 0);
        law_key_is_final(a, b, 0);
        let end = key_at(a, 0).end;
        law_keys_in_pieces(a.skip(end), b);
        assert((a + b).skip(end) =~= a.skip(end) + b);
        assert(keys_of(a + b) =~= keys_of(a) + keys_of(b));
    }
}

/// Whether no key in the bytes had to wait.
pub open spec fn settled(bytes: Seq<u8>) -> bool
    decreases bytes.len(),
{
    if bytes.len() == 0 {
        true
    } else {
        proof {
            lemma_key_end(bytes, 0);
        }
        let k = key_at(bytes, 0);
        !k.waits && settled(bytes.skip(k.end))
    }
}

/// A character that is typed comes back as it is. (Left out are the characters
/// that stand for other keys.)
pub proof fn law_typed_char(c: char)
    requires
        c > '\x1b',
        c != '\x7f',
    ensures
        keys_of(encode_utf8(seq![c])) == seq![Key::Char(c)],
        settled(encode_utf8(seq![c])),
{
    let bytes = encode_utf8(seq![c]);
    let v = c as u32;
    encode_utf8_first_scalar(seq![c]);
    encode_utf8_valid_utf8(seq![c]);
    encode_utf8_decode_utf8(seq![c]);
    text::lemma_encode_one(c);
    let b = bytes[0];
    let w = utf8_width(b);
    assert(w == length_of_first_scalar(bytes));
    assert(bytes.len() == w);
    assert(bytes.subrange(0, w) =~= bytes);
    if w == 1 {
        assert(v & 0x7f == v && (v & 0x7f) as u8 == v) by (bit_vector)
            requires
                v <= 0x7f,
        ;
        assert(b == v);
        assert(b as char == c);
    }
    let k = key_at(bytes, 0);
    assert(k.key == Key::Char(c));
    reveal_with_fuel(keys_of, 2);
    reveal_with_fuel(settled, 2);
    assert(bytes.skip(k.end) =~= Seq::<u8>::empty());
    assert(keys_of(bytes) =~= seq![Key::Char(c)]);
}

/// A key that was read from bytes.
pub struct Parsed {
    pub key: Key,
    /// Where its bytes end.
    pub end: usize,
    /// Whether it was taken for what it is only because no more bytes came.
    pub waits: bool,
}

impl View for Parsed {
    type V = KeyAt;

    open spec fn view(&self) -> KeyAt {
        KeyAt { key: self.key, end: self.end as int, waits: self.waits }
    }
}

/// The key that a final letter of a control sequence stands for.
fn key_of_letter(b: u8) -> (r: Key)
    ensures
        r == letter_key(b),
{
    match b {
        0x41 => Key::Up,
        0x42 => Key::Down,
        0x43 => Key::Right,
        0x44 => Key::Left,
        0x48 => Key::Home,
        0x46 => Key::End,
        _ => Key::Unknown,
    }
}

/// The key that a number before a tilde stands for.
fn key_of_number(n: u32) -> (r: Key)
    ensures
        r == number_key(n as nat),
{
    match n {
        1 | 7 => Key::Home,
        3 => Key::Delete,
        4 | 8 => Key::End,
        5 => Key::PageUp,
        6 => Key::PageDown,
        _ => Key::Unknown,
    }
}

/// Parse the key that begins at `i`.
pub fn parse_byte(bytes: &[u8], i: usize) -> (r: Parsed)
    requires
        i < bytes@.len(),
    ensures
        r@ == key_at(bytes@, i as int),
        i < r.end <= bytes@.len(),
        r.waits ==> r.end == bytes@.len(),
{
    proof {
        lemma_key_end(bytes@, i as int);
    }
    let b: u8 = bytes[i];
    match b {
        0x1b => parse_escape(bytes, i + 1),
        0x0d | 0x0a => Parsed { key: Key::Enter, end: i + 1, waits: false },
        0x7f | 0x08 => Parsed { key: Key::Backspace, end: i + 1, waits: false },
        _ => {
            if b <= 0x1a {
                Parsed { key: Key::Ctrl((b + 0x60) as char), end: i + 1, waits: false }
            } else {
                read_utf8_char(bytes, i)
            }
        },
    }
}

/// Parse what follows an ESC.
fn parse_escape(bytes: &[u8], i: usize) -> (r: Parsed)
    requires
        i <= bytes@.len(),
    ensures
        r@ == escape_key(bytes@, i as int),
{
    let n: usize = bytes.len();
    if i >= n {
        Parsed { key: Key::Escape, end: n, waits: true }
    } else if bytes[i] == 0x5b {
        parse_csi(bytes, i + 1)
    } else if bytes[i] == 0x4f {
        parse_ss3(bytes, i + 1)
    } else {
        Parsed { key: Key::Escape, end: i + 1, waits: false }
    }
}

/// Parse a control sequence after ESC and `[`.
fn parse_csi(bytes: &[u8], i: usize) -> (r: Parsed)
    requires
        i <= bytes@.len(),
    ensures
        r@ == csi_key(bytes@, i as int),
{
    let n: usize = bytes.len();
    if i >= n {
        return Parsed { key: Key::Unknown, end: n, waits: true };
    }
    let b: u8 = bytes[i];
    if !(0x30 <= b && b <= 0x39) {
        return Parsed { key: key_of_letter(b), end: i + 1, waits: false };
    }
    let mut num: u32 = (b - 0x30) as u32;
    let ghost mut value: nat = num as nat;
    let mut j: usize = i + 1;
    while j < n
        invariant
            n == bytes@.len(),
            i < j <= n,
            num == value || (num > 8 && value > 8),
            csi_key(bytes@, i as int) == csi_number(bytes@, j as int, value),
        decreases n - j,
    {
        let d: u8 = bytes[j];
        if d == 0x7e {
            return Parsed { key: key_of_number(num), end: j + 1, waits: false };
        }
        if d == 0x3b {
            return consume_csi_remainder(bytes, j + 1);
        }
        if !(0x30 <= d && d <= 0x39) {
            return Parsed { key: key_of_letter(d), end: j + 1, waits: false };
        }
        proof {
            value = value * 10 + (d - 0x30) as nat;
        }
        // From 9 on, the number stands for no key however it goes on.
        num = if num > 8 {
            num
        } else {
            num * 10 + (d - 0x30) as u32
        };
        j = j + 1;
    }
    Parsed { key: Key::Unknown, end: n, waits: true }
}

/// Parse a sequence after ESC and `O`.
fn parse_ss3(bytes: &[u8], i: usize) -> (r: Parsed)
    requires
        i <= bytes@.len(),
    ensures
        r@ == ss3_key(bytes@, i as int),
{
    let n: usize = bytes.len();
    if i >= n {
        Parsed { key: Key::Unknown, end: n, waits: true }
    } else {
        Parsed { key: key_of_letter(bytes[i]), end: i + 1, waits: false }
    }
}

/// Pass over the rest of a control sequence.
fn consume_csi_remainder(bytes: &[u8], i: usize) -> (r: Parsed)
    requires
        i <= bytes@.len(),
    ensures
        r@ == csi_rest(bytes@, i as int),
{
    let n: usize = bytes.len();
    let mut j: usize = i;
    while j < n
        invariant
            n == bytes@.len(),
            i <= j <= n,
            csi_rest(bytes@, i as int) == csi_rest(bytes@, j as int),
        decreases n - j,
    {
        let b: u8 = bytes[j];
        if 0x40 <= b && b <= 0x7e {
            return Parsed { key: Key::Unknown, end: j + 1, waits: false };
        }
        j = j + 1;
    }
    Parsed { key: Key::Unknown, end: n, waits: true }
}

/// Parse the character that begins at `i`.
fn read_utf8_char(bytes: &[u8], i: usize) -> (r: Parsed)
    requires
        i < bytes@.len(),
    ensures
        r@ == char_key(bytes@, i as int),
{
    let n: usize = bytes.len();
    let first: u8 = bytes[i];
    let width: usize = if first <= 0x7f {
        1
    } else if 0xc0 <= first && first <= 0xdf {
        2
    } else if 0xe0 <= first && first <= 0xef {
        3
    } else if 0xf0 <= first && first <= 0xf7 {
        4
    } else {
        return Parsed { key: Key::Char(REPLACEMENT), end: i + 1, waits: false };
    };
    if width == 1 {
        return Parsed { key: Key::Char(first as char), end: i + 1, waits: false };
    }
    if width > n - i {
        return Parsed { key: Key::Char(REPLACEMENT), end: n, waits: true };
    }
    let part = vstd::slice::slice_subrange(bytes, i, i + width);
    let ch: char = match std::str::from_utf8(part) {
        Ok(s) => {
            proof {
                encode_utf8_decode_utf8(s@);
            }
            let chars = text::chars_of(s);
            if chars.len() > 0 {
                chars[0]
            } else {
                REPLACEMENT
            }
        },
        Err(_) => REPLACEMENT,
    };
    Parsed { key: Key::Char(ch), end: i + width, waits: false }
}

/// Parse keys from a byte slice.
/// Returns all keys that can be parsed from the given bytes.
pub fn parse_keys_from_bytes(bytes: &[u8]) -> (r: Vec<Key>)
    ensures
        r@ == keys_of(bytes@),
{
    let mut reader = KeyReader::new();
    reader.feed(bytes);
    assert(reader@ =~= bytes@);
    let mut keys: Vec<Key> = Vec::new();
    let mut done: bool = false;
    while !done
        invariant
            !done ==> keys@ + keys_of(reader@) =~= keys_of(bytes@),
            done ==> keys@ =~= keys_of(bytes@),
        decreases
            reader@.len(),
            (if done {
                0int
            } else {
                1int
            }),
    {
        match reader.next_key(true) {
            Some(key) => {
                keys.push(key);
            },
            None => {
                done = true;
            },
        }
    }
    keys
}

/// Turns the bytes that a terminal sends into keys.
pub struct KeyReader {
    buf: Vec<u8>,
}

impl View for KeyReader {
    type V = Seq<u8>;

    /// The bytes that came and were not used yet.
    closed spec fn view(&self) -> Seq<u8> {
        self.buf@
    }
}

impl KeyReader {
    /// A reader to which nothing came yet.
    pub fn new() -> (r: KeyReader)
        ensures
            r@ == Seq::<u8>::empty(),
    {
        KeyReader { buf: Vec::new() }
    }

    /// Take in bytes that came.
    pub fn feed(&mut self, bytes: &[u8])
        ensures
            final(self)@ == old(self)@ + bytes@,
    {
        self.buf.extend_from_slice(bytes);
        assert(self.buf@ =~= old(self).buf@ + bytes@);
    }

    /// Whether bytes of an unfinished key are left: the next byte has to come
    /// within `BYTE_TIMEOUT_MS` to belong to it.
    pub fn is_waiting(&self) -> (r: bool)
        ensures
            r == (self@.len() > 0),
    {
        self.buf.len() > 0
    }

    /// The next key. There is none without bytes, nor while its bytes may still go
    /// on: as long as they can, `timed_out` has to say that no more came in time.
    pub fn next_key(&mut self, timed_out: bool) -> (r: Option<Key>)
        ensures
            r is None <==> old(self)@.len() == 0 || (key_at(old(self)@, 0).waits && !timed_out),
            match r {
                Some(key) => {
                    let k = key_at(old(self)@, 0);
                    &&& key == k.key
                    &&& final(self)@ == old(self)@.skip(k.end)
                    &&& final(self)@.len() < old(self)@.len()
                },
                None => final(self)@ == old(self)@,
            },
    {
        if self.buf.len() == 0 {
            return None;
        }
        let parsed = parse_byte(&self.buf, 0);
        if parsed.waits && !timed_out {
            return None;
        }
        self.buf = self.buf.split_off(parsed.end);
        Some(parsed.key)
    }
}

/// One byte that is a key of its own: Enter, Backspace, or a letter with Ctrl.
pub proof fn law_control_bytes(b: u8)
    requires
        1 <= b <= 26 || b == 0x7f,
    ensures
        ({
            let key = if b == 13 || b == 10 {
                Key::Enter
            } else if b == 0x7f || b == 8 {
                Key::Backspace
            } else {
                Key::Ctrl((b - 1 + 'a' as u32) as char)
            };
            keys_of(seq![b]) == seq![key] && settled(seq![b])
        }),
{
    let bytes = seq![b];
    reveal_with_fuel(keys_of, 2);
    reveal_with_fuel(settled, 2);
    assert(bytes.skip(1) =~= Seq::<u8>::empty());
    assert(keys_of(bytes) =~= seq![key_at(bytes, 0).key]);
}

/// The sequence of a key that the terminal names by a letter, after ESC and `[` or `O`.
pub proof fn law_letter_keys(second: u8, b: u8)
    requires
        second == 0x5b || second == 0x4f,
        second == 0x5b ==> !(0x30 <= b <= 0x39),
    ensures
        ({
            let bytes = seq![0x1bu8, second, b];
            let key = if b == 'A' as u32 {
                Key::Up
            } else if b == 'B' as u32 {
                Key::Down
            } else if b == 'C' as u32 {
                Key::Right
            } else if b == 'D' as u32 {
                Key::Left
            } else if b == 'H' as u32 {
                Key::Home
            } else if b == 'F' as u32 {
                Key::End
            } else {
                Key::Unknown
            };
            keys_of(bytes) == seq![key] && settled(bytes)
        }),
{
    let bytes = seq![0x1bu8, second, b];
    reveal_with_fuel(keys_of, 2);
    reveal_with_fuel(settled, 2);
    assert(bytes.skip(3) =~= Seq::<u8>::empty());
    assert(keys_of(bytes) =~= seq![key_at(bytes, 0).key]);
}

/// The digits of a control sequence are read as a number.
proof fn lemma_csi_digits(bytes: Seq<u8>, from: int, i: int, j: int, n: nat)
    requires
        0 <= from <= i <= j < bytes.len(),
        forall|k: int| i <= k < j ==> 48 <= #[trigger] bytes[k] <= 57,
        n == terminal::number_of(bytes.subrange(from, i)),
    ensures
        csi_number(bytes, i, n) == csi_number(
            bytes,
            j,
            terminal::number_of(bytes.subrange(from, j)),
        ),
    decreases j - i,
{
    if i < j {
        let next = bytes.subrange(from, i + 1);
        assert(next.drop_last() =~= bytes.subrange(from, i));
        assert(next.last() == bytes[i]);
        lemma_csi_digits(bytes, from, i + 1, j, n * 10 + (bytes[i] - 0x30) as nat);
    }
}

/// The sequence of a key that the terminal names by a number, between ESC and `[`, and a
/// tilde.
#[verifier::rlimit(50)]
#[verifier::spinoff_prover]
pub proof fn law_number_keys(n: nat)
    ensures
        ({
            let bytes = seq![0x1bu8, 0x5bu8] + terminal::decimal(n) + seq![0x7eu8];
            let key = if n == 1 || n == 7 {
                Key::Home
            } else if n == 3 {
                Key::Delete
            } else if n == 4 || n == 8 {
                Key::End
            } else if n == 5 {
                Key::PageUp
            } else if n == 6 {
                Key::PageDown
            } else {
                Key::Unknown
            };
            keys_of(bytes) == seq![key] && settled(bytes)
        }),
{
    let digits = terminal::decimal(n);
    let bytes = seq![0x1bu8, 0x5bu8] + digits + seq![0x7eu8];
    let m = digits.len() as int;
    terminal::law_decimal(n);
    assert forall|k: int| 2 <= k < 2 + m implies 48 <= #[trigger] bytes[k] <= 57 by {
        assert(bytes[k] == digits[k - 2]);
    }
    let first = bytes.subrange(2, 3);
    assert(first.drop_last() =~= Seq::<u8>::empty());
    assert(terminal::number_of(first.drop_last()) == 0);
    assert(terminal::number_of(first) == bytes[2] - 48);
    lemma_csi_digits(bytes, 2, 3, 2 + m, (bytes[2] - 48) as nat);
    assert(bytes.subrange(2, 2 + m) =~= digits);
    reveal_with_fuel(keys_of, 2);
    reveal_with_fuel(settled, 2);
    assert(key_at(bytes, 0).end == bytes.len());
    assert(bytes.skip(bytes.len() as int) =~= Seq::<u8>::empty());
    assert(keys_of(bytes) =~= seq![key_at(bytes, 0).key]);
}

/// An ESC alone is the Escape key, if nothing comes in time; with a byte that begins no
/// sequence it is that key at once.
pub proof fn law_escape_alone(b: u8)
    requires
        b != 0x5b,
        b != 0x4f,
    ensures
        keys_of(seq![0x1bu8]) == seq![Key::Escape],
        key_at(seq![0x1bu8], 0).waits,
        keys_of(seq![0x1bu8, b]) == seq![Key::Escape],
        settled(seq![0x1bu8, b]),
{
    let one = seq![0x1bu8];
    let two = seq![0x1bu8, b];
    reveal_with_fuel(keys_of, 2);
    reveal_with_fuel(settled, 2);
    assert(one.skip(1) =~= Seq::<u8>::empty());
    assert(two.skip(2) =~= Seq::<u8>::empty());
    assert(keys_of(one) =~= seq![Key::Escape]);
    assert(keys_of(two) =~= seq![Key::Escape]);
}

/// A byte that begins no character stands for one that is not valid.
pub proof fn law_invalid_byte(b: u8)
    requires
        0x80 <= b <= 0xbf || b >= 0xf8,
    ensures
        keys_of(seq![b]) == seq![Key::Char('\u{fffd}')],
        settled(seq![b]),
{
    let bytes = seq![b];
    reveal_with_fuel(keys_of, 2);
    reveal_with_fuel(settled, 2);
    assert(bytes.skip(1) =~= Seq::<u8>::empty());
    assert(keys_of(bytes) =~= seq![key_at(bytes, 0).key]);
}

/// A control sequence with a semicolon goes on to its first final byte.
proof fn lemma_csi_rest_scan(bytes: Seq<u8>, i: int, j: int)
    requires
        0 <= i <= j < bytes.len(),
        forall|k: int| i <= k < j ==> !(0x40 <= #[trigger] bytes[k] <= 0x7e),
        0x40 <= bytes[j] <= 0x7e,
    ensures
        csi_rest(bytes, i) == whole(Key::Unknown, j + 1),
    decreases j - i,
{
    if i < j {
        lemma_csi_rest_scan(bytes, i + 1, j);
    }
}

/// A control sequence with a number and more parameters after a semicolon is one key
/// without a name, as a whole: none of its bytes are taken for other keys.
pub proof fn law_modified_keys(n: nat, params: Seq<u8>, last: u8)
    requires
        forall|k: int| 0 <= k < params.len() ==> !(0x40 <= #[trigger] params[k] <= 0x7e),
        0x40 <= last <= 0x7e,
    ensures
        ({
            let bytes = seq![0x1bu8, 0x5bu8] + terminal::decimal(n) + seq![0x3bu8] + params
                + seq![last];
            keys_of(bytes) == seq![Key::Unknown] && settled(bytes)
        }),
{
    let digits = terminal::decimal(n);
    let bytes = seq![0x1bu8, 0x5bu8] + digits + seq![0x3bu8] + params + seq![last];
    let m = digits.len() as int;
    let p = params.len() as int;
    terminal::law_decimal(n);
    assert forall|k: int| 2 <= k < 2 + m implies 48 <= #[trigger] bytes[k] <= 57 by {
        assert(bytes[k] == digits[k - 2]);
    }
    let first = bytes.subrange(2, 3);
    assert(first.drop_last() =~= Seq::<u8>::empty());
    assert(terminal::number_of(first.drop_last()) == 0);
    assert(terminal::number_of(first) == bytes[2] - 48);
    lemma_csi_digits(bytes, 2, 3, 2 + m, (bytes[2] - 48) as nat);
    assert(bytes[2 + m] == 0x3b);
    assert forall|k: int| 3 + m <= k < 3 + m + p implies !(0x40 <= #[trigger] bytes[k]
        <= 0x7e) by {
        assert(bytes[k] == params[k - 3 - m]);
    }
    assert(bytes[3 + m + p] == last);
    lemma_csi_rest_scan(bytes, 3 + m, 3 + m + p);
    reveal_with_fuel(keys_of, 2);
    reveal_with_fuel(settled, 2);
    assert(key_at(bytes, 0).end == bytes.len());
    assert(bytes.skip(bytes.len() as int) =~= Seq::<u8>::empty());
    assert(keys_of(bytes) =~= seq![Key::Unknown]);
}

/// A letter after a number in a control sequence is the key of that letter.
pub proof fn law_letter_after_number(n: nat, b: u8)
    requires
        !(0x30 <= b <= 0x39),
        b != 0x3b,
        b != 0x7e,
    ensures
        ({
            let bytes = seq![0x1bu8, 0x5bu8] + terminal::decimal(n) + seq![b];
            keys_of(bytes) == keys_of(seq![0x1bu8, 0x5bu8, b]) && settled(bytes)
        }),
{
    let digits = terminal::decimal(n);
    let bytes = seq![0x1bu8, 0x5bu8] + digits + seq![b];
    let plain = seq![0x1bu8, 0x5bu8, b];
    let m = digits.len() as int;
    terminal::law_decimal(n);
    law_letter_keys(0x5b, b);
    assert forall|k: int| 2 <= k < 2 + m implies 48 <= #[trigger] bytes[k] <= 57 by {
        assert(bytes[k] == digits[k - 2]);
    }
    let first = bytes.subrange(2, 3);
    assert(first.drop_last() =~= Seq::<u8>::empty());
    assert(terminal::number_of(first.drop_last()) == 0);
    assert(terminal::number_of(first) == bytes[2] - 48);
    lemma_csi_digits(bytes, 2, 3, 2 + m, (bytes[2] - 48) as nat);
    assert(bytes[2 + m] == b);
    reveal_with_fuel(keys_of, 2);
    reveal_with_fuel(settled, 2);
    assert(key_at(bytes, 0).end == bytes.len());
    assert(bytes.skip(bytes.len() as int) =~= Seq::<u8>::empty());
    assert(plain.skip(3) =~= Seq::<u8>::empty());
    assert(keys_of(bytes) =~= keys_of(plain));
}

/// Bytes that have the number that their first one announces, but are no character,
/// stand for one that is not valid, as a whole.
pub proof fn law_invalid_character(bytes: Seq<u8>)
    requires
        bytes.len() > 0,
        !valid_utf8(bytes),
        0xc0 <= bytes[0] <= 0xf7,
        bytes.len() == if bytes[0] < 0xe0 {
            2int
        } else if bytes[0] < 0xf0 {
            3
        } else {
            4
        },
    ensures
        keys_of(bytes) == seq![Key::Char('\u{fffd}')],
        settled(bytes),
{
    reveal_with_fuel(keys_of, 2);
    reveal_with_fuel(settled, 2);
    let n = bytes.len() as int;
    assert(bytes.subrange(0, n) =~= bytes);
    assert(bytes.skip(n) =~= Seq::<u8>::empty());
    assert(keys_of(bytes) =~= seq![key_at(bytes, 0).key]);
}

/// As long as bytes of a key are missing, it is waited for.
pub proof fn law_part_of_key_waits(bytes: Seq<u8>, n: int)
    requires
        0 < n < key_at(bytes, 0).end,
        bytes.len() > 0,
        !key_at(bytes, 0).waits,
    ensures
        key_at(bytes.take(n), 0).waits,
{
    lemma_key_end(bytes, 0);
    let part = bytes.take(n);
    if !key_at(part, 0).waits {
        lemma_key_end(part, 0);
        law_key_is_final(part, bytes.skip(n), 0);
        assert(part + bytes.skip(n) =~= bytes);
    }
}

} // verus!

//! Drawing the screen.
use crate::ansi;
use crate::pager::Pager;
use crate::regexp;
use crate::search;
use crate::state;
use crate::state::{Mode, SearchDir};
use crate::terminal;
use crate::text;
use crate::wrap;
use vstd::prelude::*;
use vstd::utf8::*;

verus! {

/// What is shown at the right of the status bar.
pub const VERSION_LABEL: &'static str = "lz 0.1.0";

/// The lines of the help screen.
pub open spec fn help_text(row: int) -> Seq<char> {
    if row == 1 {
        "  NAVIGATION"@
    } else if row == 2 {
        "    j / Down / Enter   Scroll down one line"@
    } else if row == 3 {
        "    k / Up             Scroll up one line"@
    } else if row == 4 {
        "    d / Ctrl-D         Half page down"@
    } else if row == 5 {
        "    u / Ctrl-U         Half page up"@
    } else if row == 6 {
        "    Space / PgDn       Page down"@
    } else if row == 7 {
        "    b / PgUp           Page up"@
    } else if row == 8 {
        "    g / Home           Go to top"@
    } else if row == 9 {
        "    G / End            Go to bottom"@
    } else if row == 10 {
        "    Left / Right       Horizontal scroll"@
    } else if row == 12 {
        "  SEARCH"@
    } else if row == 13 {
        "    /                  Search forward"@
    } else if row == 14 {
        "    ?                  Search backward"@
    } else if row == 15 {
        "    n                  Next match"@
    } else if row == 16 {
        "    N                  Previous match"@
    } else if row == 17 {
        "    &                  Filter lines by pattern"@
    } else if row == 19 {
        "  OTHER"@
    } else if row == 20 {
        "    w                  Toggle line wrap"@
    } else if row == 21 {
        "    F                  Follow mode (tail -f)"@
    } else if row == 22 {
        "    h                  Toggle this help"@
    } else if row == 23 {
        "    q / Esc            Quit"@
    } else {
        ""@
    }
}

/// The lines of the help screen.
fn help_line(row: usize) -> (r: &'static str)
    ensures
        r@ == help_text(row as int),
{
    match row {
        1 => "  NAVIGATION",
        2 => "    j / Down / Enter   Scroll down one line",
        3 => "    k / Up             Scroll up one line",
        4 => "    d / Ctrl-D         Half page down",
        5 => "    u / Ctrl-U         Half page up",
        6 => "    Space / PgDn       Page down",
        7 => "    b / PgUp           Page up",
        8 => "    g / Home           Go to top",
        9 => "    G / End            Go to bottom",
        10 => "    Left / Right       Horizontal scroll",
        12 => "  SEARCH",
        13 => "    /                  Search forward",
        14 => "    ?                  Search backward",
        15 => "    n                  Next match",
        16 => "    N                  Previous match",
        17 => "    &                  Filter lines by pattern",
        19 => "  OTHER",
        20 => "    w                  Toggle line wrap",
        21 => "    F                  Follow mode (tail -f)",
        22 => "    h                  Toggle this help",
        23 => "    q / Esc            Quit",
        _ => "",
    }
}

/// The first `w` bytes, or all.
pub open spec fn cut(bytes: Seq<u8>, w: int) -> Seq<u8> {
    if bytes.len() > w {
        bytes.take(w)
    } else {
        bytes
    }
}

/// A row of the screen: the cursor goes there, something is shown, and the rest of
/// the row is cleared.
pub open spec fn row_bytes(row: int, shown: Seq<u8>) -> Seq<u8> {
    terminal::cursor_to(row as nat, 0) + shown + terminal::clear_to_end()
}

/// Where range number `k` may begin: at the end of the one before.
pub open spec fn range_start(ranges: Seq<(usize, usize)>, k: int) -> int {
    if k <= 0 {
        0
    } else {
        ranges[k - 1].1 as int
    }
}

/// A text as far as the end of range number `k - 1`, with the ranges before `k`
/// marked.
pub open spec fn marked(bytes: Seq<u8>, ranges: Seq<(usize, usize)>, k: int) -> Seq<u8>
    decreases k,
{
    if k <= 0 {
        Seq::empty()
    } else {
        let (start, end) = ranges[k - 1];
        marked(bytes, ranges, k - 1) + bytes.subrange(range_start(ranges, k - 1), start as int)
            + encode_utf8("\x1b[30;43m"@) + bytes.subrange(start as int, end as int) + encode_utf8(
            "\x1b[m"@,
        )
    }
}

/// A text with ranges of it marked in black on yellow.
pub open spec fn highlighted(bytes: Seq<u8>, ranges: Seq<(usize, usize)>) -> Seq<u8> {
    let n = ranges.len() as int;
    marked(bytes, ranges, n) + bytes.subrange(range_start(ranges, n), bytes.len() as int)
}

/// What is shown of a line: the part `display` of it, or without colours but with
/// the matches marked, if the pattern matches the line and this part.
pub open spec fn painted(pattern: Option<Seq<char>>, line: Seq<char>, display: Seq<char>) -> Seq<
    u8,
> {
    match pattern {
        Some(p) => {
            let plain = ansi::visible_text(display);
            let ranges = search::match_ranges(p, plain);
            if search::line_matches(p, line) && ranges.len() > 0 {
                highlighted(encode_utf8(plain), ranges)
            } else {
                encode_utf8(display)
            }
        },
        None => encode_utf8(display),
    }
}

/// What is shown in a row without a line.
pub open spec fn no_line() -> Seq<u8> {
    encode_utf8("~"@)
}

/// The first `n` rows of the help screen.
pub open spec fn help_rows(w: int, n: int) -> Seq<u8>
    decreases n,
{
    if n <= 0 {
        Seq::empty()
    } else {
        help_rows(w, n - 1) + row_bytes(n - 1, cut(encode_utf8(help_text(n - 1)), w))
    }
}

/// What is shown in a row without wrapping: a part of one line.
pub open spec fn plain_row(v: state::PagerView, row: int) -> Seq<u8> {
    match v.line_at(v.top + row) {
        Some(i) => {
            let line = v.buffer.lines[i];
            painted(v.search, line, ansi::window(line, v.left as nat, v.width as nat, v.raw))
        },
        None => no_line(),
    }
}

/// The first `n` rows without wrapping: a line in each.
pub open spec fn plain_rows(v: state::PagerView, n: int) -> Seq<u8>
    decreases n,
{
    if n <= 0 {
        Seq::empty()
    } else {
        plain_rows(v, n - 1) + row_bytes(n - 1, plain_row(v, n - 1))
    }
}

/// Part number `k` of a line that is wrapped.
pub open spec fn wrapped_part(v: state::PagerView, line: Seq<char>, k: int) -> Seq<u8> {
    painted(
        v.search,
        line,
        ansi::window(line, (k * v.width) as nat, v.width as nat, v.raw),
    )
}

/// The first `n` parts of a line, from row `row` on.
pub open spec fn wrapped_parts(v: state::PagerView, line: Seq<char>, row: int, n: int) -> Seq<u8>
    decreases n,
{
    if n <= 0 {
        Seq::empty()
    } else {
        wrapped_parts(v, line, row, n - 1) + row_bytes(row + n - 1, wrapped_part(v, line, n - 1))
    }
}

/// Parts of a line that fit from row `row` on.
pub open spec fn parts_shown(v: state::PagerView, line: Seq<char>, row: int) -> int {
    let need = wrap::rows_for(wrap::line_columns(line, v.raw), v.width as int);
    if need < v.content_height() - row {
        need
    } else {
        v.content_height() - row
    }
}

/// The rows from `row` on with wrapping, where line number `n` begins.
pub open spec fn wrapped_rows(v: state::PagerView, row: int, n: int) -> Seq<u8>
    decreases v.content_height() - row,
{
    if row >= v.content_height() {
        Seq::empty()
    } else {
        match v.line_at(n) {
            Some(i) => {
                let parts = parts_shown(v, v.buffer.lines[i], row);
                if parts >= 1 {
                    wrapped_parts(v, v.buffer.lines[i], row, parts) + wrapped_rows(
                        v,
                        row + parts,
                        n + 1,
                    )
                } else {
                    Seq::empty()
                }
            },
            None => row_bytes(row, no_line()) + wrapped_rows(v, row + 1, n + 1),
        }
    }
}

/// `n` spaces.
pub open spec fn blanks(n: int) -> Seq<u8> {
    Seq::new(
        if n > 0 {
            n as nat
        } else {
            0
        },
        |i: int| 32u8,
    )
}

/// `s` and a part after it, with a space between them.
pub open spec fn and_part(s: Seq<char>, part: Seq<char>) -> Seq<char> {
    if s.len() > 0 {
        s + " "@ + part
    } else {
        part
    }
}

/// The text of the status bar.
pub open spec fn status_text(v: state::PagerView) -> Seq<char> {
    match v.mode {
        Mode::SearchInput => if v.dir == SearchDir::Forward {
            "/"@ + v.search_input.content()
        } else {
            "?"@ + v.search_input.content()
        },
        Mode::FilterInput => "&"@ + v.filter_input.content(),
        Mode::Help => "h: return"@,
        Mode::Follow => "Waiting for data..."@,
        Mode::Normal => match v.status {
            Some(message) => message,
            None => {
                let name = match v.filename {
                    Some(name) => name,
                    None => Seq::empty(),
                };
                let filtered = match v.filter {
                    Some(p) => and_part(name, "[&"@ + p + "]"@),
                    None => name,
                };
                let all = if v.wrap {
                    and_part(filtered, "[wrap]"@)
                } else {
                    filtered
                };
                if all.len() == 0 {
                    ":"@
                } else {
                    all
                }
            },
        },
    }
}

/// The status bar without its colours: the text, then the version at the right if
/// there is room for it between them.
pub open spec fn status_row(status: Seq<u8>, w: int) -> Seq<u8> {
    let shown = cut(status, w);
    let label = encode_utf8(VERSION_LABEL@);
    if w - label.len() > shown.len() {
        shown + blanks(w - label.len() - shown.len()) + label
    } else {
        shown + blanks(w - shown.len())
    }
}

/// The status bar, in the last row.
pub open spec fn status_bar(v: state::PagerView) -> Seq<u8> {
    terminal::cursor_to((v.height - 1) as nat, 0) + encode_utf8("\x1b[7m"@) + status_row(
        encode_utf8(status_text(v)),
        v.width as int,
    ) + encode_utf8("\x1b[m"@)
}

/// The whole screen.
pub open spec fn frame(v: state::PagerView) -> Seq<u8> {
    encode_utf8("\x1b[?25l"@) + terminal::cursor_to(0, 0) + (if v.mode == Mode::Help {
        help_rows(v.width as int, v.content_height())
    } else if v.wrap {
        wrapped_rows(v, 0, v.top)
    } else {
        plain_rows(v, v.content_height())
    }) + status_bar(v)
}

/// Whether the status bar can be cut to the screen: not within a character.
pub open spec fn status_fits(v: state::PagerView) -> bool {
    let bytes = encode_utf8(status_text(v));
    bytes.len() <= v.width || is_char_boundary(bytes, v.width as int)
}

/// The status bar is exactly as wide as the screen, in bytes.
pub proof fn law_status_row_width(status: Seq<u8>, w: int)
    requires
        0 <= w,
    ensures
        status_row(status, w).len() == w,
{
}

/// Ranges within a text, one after the other.
pub open spec fn ordered(bytes: Seq<u8>, ranges: Seq<(usize, usize)>) -> bool {
    forall|k: int|
        #![trigger ranges[k]]
        0 <= k < ranges.len() ==> range_start(ranges, k) <= ranges[k].0 <= ranges[k].1
            <= bytes.len()
}

/// Bytes between two character boundaries are valid UTF-8.
proof fn lemma_between_boundaries(bytes: Seq<u8>, a: int, b: int)
    requires
        valid_utf8(bytes),
        is_char_boundary(bytes, a),
        is_char_boundary(bytes, b),
        0 <= a <= b <= bytes.len(),
    ensures
        valid_utf8(bytes.subrange(a, b)),
{
    let front = bytes.subrange(0, b);
    valid_utf8_split(bytes, b);
    if a < b {
        assert(front[a] == bytes[a]);
        is_char_boundary_iff_not_is_continuation_byte(bytes, a);
        is_char_boundary_iff_not_is_continuation_byte(front, a);
    } else {
        is_char_boundary_start_end_of_seq(front);
    }
    valid_utf8_split(front, a);
    assert(front.subrange(a, front.len() as int) =~= bytes.subrange(a, b));
}

/// Part of a text, up to a place where bytes were cut between characters.
proof fn lemma_text_prefix(text: Seq<char>, pre: Seq<char>, at: int)
    requires
        is_char_boundary(encode_utf8(text), at),
        0 <= at <= encode_utf8(text).len(),
        encode_utf8(pre) == encode_utf8(text).take(at),
    ensures
        pre.is_prefix_of(text),
{
    let bytes = encode_utf8(text);
    encode_utf8_valid_utf8(text);
    encode_utf8_decode_utf8(text);
    encode_utf8_decode_utf8(pre);
    decode_utf8_split(bytes, at);
    assert(bytes.subrange(0, at) =~= bytes.take(at));
}

/// The sequences that a match is marked with do not show.
proof fn lemma_marks_invisible()
    ensures
        ansi::is_invisible("\x1b[30;43m"@),
        ansi::is_invisible("\x1b[m"@),
{
    let on = "\x1b[30;43m"@;
    let off = "\x1b[m"@;
    reveal_strlit("\x1b[30;43m");
    reveal_strlit("\x1b[m");
    reveal_with_fuel(ansi::csi_end, 8);
    ansi::lemma_complete_invisible(on);
    ansi::lemma_complete_invisible(off);
}

/// The text that `marked` encodes, and the part of the text that shows of it.
proof fn lemma_marked_text(text: Seq<char>, ranges: Seq<(usize, usize)>, k: int) -> (r: (
    Seq<char>,
    Seq<char>,
))
    requires
        !text.contains(ansi::ESC),
        regexp::are_ranges(ranges, text),
        0 <= k <= ranges.len(),
    ensures
        encode_utf8(r.0) == marked(encode_utf8(text), ranges, k),
        encode_utf8(r.1) == encode_utf8(text).take(range_start(ranges, k)),
        forall|t: Seq<char>| #[trigger]
            ansi::visible_text(r.0 + t) == r.1 + ansi::visible_text(t),
    decreases k,
{
    let bytes = encode_utf8(text);
    let none = Seq::<char>::empty();
    assert(encode_utf8(none) =~= Seq::<u8>::empty());
    if k <= 0 {
        assert(bytes.take(0) =~= Seq::<u8>::empty());
        assert forall|t: Seq<char>| #[trigger] ansi::visible_text(none + t) == none
            + ansi::visible_text(t) by {
            assert(none + t =~= t);
            assert(none + ansi::visible_text(t) =~= ansi::visible_text(t));
        }
        (none, none)
    } else {
        let (out, pre) = lemma_marked_text(text, ranges, k - 1);
        let (start, end) = ranges[k - 1];
        let from = range_start(ranges, k - 1);
        let s = start as int;
        let e = end as int;
        encode_utf8_valid_utf8(text);
        is_char_boundary_start_end_of_seq(bytes);
        if k > 1 {
            assert(ranges[k - 2].1 <= ranges[k - 1].0);
        }
        lemma_between_boundaries(bytes, from, s);
        lemma_between_boundaries(bytes, s, e);
        let a = decode_utf8(bytes.subrange(from, s));
        let b = decode_utf8(bytes.subrange(s, e));
        decode_utf8_encode_utf8(bytes.subrange(from, s));
        decode_utf8_encode_utf8(bytes.subrange(s, e));
        let on = "\x1b[30;43m"@;
        let off = "\x1b[m"@;
        lemma_marks_invisible();
        let all = out + a + on + b + off;
        let seen = pre + a + b;
        text::lemma_encode_concat(out, a);
        text::lemma_encode_concat(out + a, on);
        text::lemma_encode_concat(out + a + on, b);
        text::lemma_encode_concat(out + a + on + b, off);
        text::lemma_encode_concat(pre, a);
        text::lemma_encode_concat(pre + a, b);
        assert(encode_utf8(seen) =~= bytes.take(e));
        lemma_text_prefix(text, seen, e);
        assert forall|i: int| 0 <= i < a.len() implies a[i] != ansi::ESC by {
            assert(seen[pre.len() + i] == a[i]);
            assert(text[pre.len() + i] == a[i]);
        }
        assert forall|i: int| 0 <= i < b.len() implies b[i] != ansi::ESC by {
            assert(seen[pre.len() + a.len() + i] == b[i]);
            assert(text[pre.len() + a.len() + i] == b[i]);
        }
        assert forall|t: Seq<char>| #[trigger] ansi::visible_text(all + t) == seen
            + ansi::visible_text(t) by {
            let t1 = off + t;
            let t2 = b + t1;
            let t3 = on + t2;
            let t4 = a + t3;
            assert(all + t =~= out + t4);
            assert(ansi::visible_text(out + t4) == pre + ansi::visible_text(t4));
            ansi::lemma_plain_prefix(a, t3);
            assert(ansi::visible_text(on + t2) == ansi::visible_text(t2));
            ansi::lemma_plain_prefix(b, t1);
            assert(ansi::visible_text(off + t) == ansi::visible_text(t));
            let v = ansi::visible_text(t);
            assert(pre + (a + (b + v)) =~= seen + v);
        }
        (all, seen)
    }
}

/// Marking matches only adds colours: what shows of the marked text is the text.
pub proof fn law_highlight_keeps_text(text: Seq<char>, ranges: Seq<(usize, usize)>)
    requires
        !text.contains(ansi::ESC),
        regexp::are_ranges(ranges, text),
    ensures
        ({
            let bytes = highlighted(encode_utf8(text), ranges);
            valid_utf8(bytes) && ansi::visible_text(decode_utf8(bytes)) == text
        }),
{
    let bytes = encode_utf8(text);
    let n = ranges.len() as int;
    let (out, pre) = lemma_marked_text(text, ranges, n);
    let at = range_start(ranges, n);
    encode_utf8_valid_utf8(text);
    is_char_boundary_start_end_of_seq(bytes);
    let len = bytes.len() as int;
    lemma_between_boundaries(bytes, at, len);
    let rest = decode_utf8(bytes.subrange(at, len));
    decode_utf8_encode_utf8(bytes.subrange(at, len));
    text::lemma_encode_concat(out, rest);
    text::lemma_encode_concat(pre, rest);
    assert(encode_utf8(pre + rest) =~= bytes);
    text::lemma_encode_injective(pre + rest, text);
    encode_utf8_decode_utf8(out + rest);
    encode_utf8_valid_utf8(out + rest);
    assert forall|i: int| 0 <= i < rest.len() implies rest[i] != ansi::ESC by {
        assert(text[pre.len() + i] == rest[i]);
    }
    ansi::law_plain_text_is_visible(rest);
    assert(ansi::visible_text(out + rest) == pre + rest);
}

/// Append part of `bytes`.
fn push_part(buf: &mut Vec<u8>, bytes: &[u8], from: usize, to: usize)
    requires
        from <= to <= bytes@.len(),
    ensures
        final(buf)@ == old(buf)@ + bytes@.subrange(from as int, to as int),
{
    let part = vstd::slice::slice_subrange(bytes, from, to);
    buf.extend_from_slice(part);
    assert(buf@ =~= old(buf)@ + bytes@.subrange(from as int, to as int));
}

/// Append a row of the screen.
fn push_row(buf: &mut Vec<u8>, row: usize, shown: &Vec<u8>)
    requires
        row < 65535,
    ensures
        final(buf)@ == old(buf)@ + row_bytes(row as int, shown@),
{
    terminal::move_cursor(buf, row as u16, 0);
    buf.extend_from_slice(shown);
    terminal::clear_line(buf);
    assert(buf@ =~= old(buf)@ + row_bytes(row as int, shown@));
}

/// Append `n` spaces.
fn push_blanks(buf: &mut Vec<u8>, n: usize)
    ensures
        final(buf)@ == old(buf)@ + blanks(n as int),
{
    let mut i: usize = 0;
    while i < n
        invariant
            i <= n,
            buf@ =~= old(buf)@ + blanks(i as int),
        decreases n - i,
    {
        buf.push(32);
        i = i + 1;
    }
}

/// Append a text with ranges of it marked.
pub fn highlight(buf: &mut Vec<u8>, text: &str, ranges: &Vec<(usize, usize)>)
    requires
        ordered(encode_utf8(text@), ranges@),
    ensures
        final(buf)@ == old(buf)@ + highlighted(encode_utf8(text@), ranges@),
{
    let bytes = text.as_bytes();
    let n: usize = ranges.len();
    let mut last_end: usize = 0;
    let mut k: usize = 0;
    while k < n
        invariant
            k <= n,
            n == ranges@.len(),
            bytes@ == encode_utf8(text@),
            ordered(bytes@, ranges@),
            last_end == range_start(ranges@, k as int),
            last_end <= bytes@.len(),
            buf@ =~= old(buf)@ + marked(bytes@, ranges@, k as int),
        decreases n - k,
    {
        let (start, end): (usize, usize) = ranges[k];
        assert(ranges@[k as int] == (start, end));
        push_part(buf, bytes, last_end, start);
        text::push_text(buf, "\x1b[30;43m");
        push_part(buf, bytes, start, end);
        text::push_text(buf, "\x1b[m");
        last_end = end;
        k = k + 1;
    }
    push_part(buf, bytes, last_end, bytes.len());
    assert(buf@ =~= old(buf)@ + highlighted(encode_utf8(text@), ranges@));
}

impl Pager {
    /// Whether the status bar can be cut to the screen.
    pub fn can_render(&self) -> (r: bool)
        requires
            self.wf(),
        ensures
            r == status_fits(self@),
    {
        let status = self.build_status();
        let s = status.as_str();
        let w: usize = self.term_width as usize;
        s.as_bytes().len() <= w || s.is_char_boundary(w)
    }

    /// Draw the screen.
    pub fn render(&self) -> (r: Vec<u8>)
        requires
            self.wf(),
            status_fits(self@),
        ensures
            r@ == frame(self@),
    {
        let mut buf: Vec<u8> = Vec::new();
        let w: usize = self.term_width as usize;
        let ch: usize = self.content_height();
        terminal::hide_cursor(&mut buf);
        terminal::move_cursor(&mut buf, 0, 0);
        if self.mode == Mode::Help {
            Pager::render_help(&mut buf, w, ch);
        } else if self.wrap {
            self.render_wrapped(&mut buf, w, ch);
        } else {
            self.render_nowrap(&mut buf, w, ch);
        }
        self.render_status(&mut buf, w);
        assert(buf@ =~= frame(self@));
        buf
    }

    /// The line that is shown as number `top_line + n`, if there is one.
    fn line_below(&self, n: usize) -> (r: Option<usize>)
        ensures
            match r {
                Some(i) => self@.line_at(self@.top + n) == Some(i as int),
                None => self@.line_at(self@.top + n) is None,
            },
            r matches Some(i) ==> i < self@.buffer.lines.len(),
    {
        assert(self.buffer.lines.len() == self.buffer@.lines.len());
        assert(self.filtered_lines.len() == self.filtered_lines@.len());
        if n > usize::MAX - self.top_line {
            return None;
        }
        self.display_line_idx(self.top_line + n)
    }

    /// Draw the lines without wrapping.
    fn render_nowrap(&self, buf: &mut Vec<u8>, w: usize, ch: usize)
        requires
            self.wf(),
            w == self@.width,
            ch == self@.content_height(),
        ensures
            final(buf)@ == old(buf)@ + plain_rows(self@, ch as int),
    {
        let mut row: usize = 0;
        assert(old(buf)@ + plain_rows(self@, 0) =~= old(buf)@);
        while row < ch
            invariant
                self.wf(),
                w == self@.width,
                ch == self@.content_height(),
                row <= ch < 65536,
                buf@ == old(buf)@ + plain_rows(self@, row as int),
            decreases ch - row,
        {
            let mut shown: Vec<u8> = Vec::new();
            match self.line_below(row) {
                Some(i) => {
                    let display = ansi::truncate_to_width(
                        &self.buffer.lines[i],
                        self.left_col,
                        w,
                        self.raw_mode,
                    );
                    self.write_line_with_search(&mut shown, &display, i);
                },
                None => {
                    text::push_text(&mut shown, "~");
                },
            }
            assert(shown@ =~= plain_row(self@, row as int));
            push_row(buf, row, &shown);
            row = row + 1;
            assert(buf@ =~= old(buf)@ + plain_rows(self@, row as int));
        }
    }

    /// Draw the lines with wrapping.
    fn render_wrapped(&self, buf: &mut Vec<u8>, w: usize, ch: usize)
        requires
            self.wf(),
            w == self@.width,
            ch == self@.content_height(),
        ensures
            final(buf)@ == old(buf)@ + wrapped_rows(self@, 0, self@.top),
    {
        let mut screen_row: usize = 0;
        let mut passed: usize = 0;
        let ghost whole = old(buf)@ + wrapped_rows(self@, 0, self@.top);
        while screen_row < ch
            invariant
                self.wf(),
                w == self@.width,
                ch == self@.content_height(),
                screen_row <= ch < 65536,
                passed <= screen_row,
                buf@ + wrapped_rows(self@, screen_row as int, self@.top + passed) == whole,
            decreases ch - screen_row,
        {
            let ghost before = buf@;
            let ghost here = screen_row as int;
            let ghost n = self@.top + passed;
            match self.line_below(passed) {
                Some(i) => {
                    let columns: usize = wrap::columns_of(&self.buffer.lines[i], self.raw_mode);
                    let need: usize = wrap::rows_needed(columns, w);
                    let parts: usize = if need < ch - screen_row {
                        need
                    } else {
                        ch - screen_row
                    };
                    assert(parts == parts_shown(self@, self@.buffer.lines[i as int], here));
                    self.render_parts(buf, w, i, screen_row, parts);
                    screen_row = screen_row + parts;
                    proof {
                        let line = self@.buffer.lines[i as int];
                        let drawn = wrapped_parts(self@, line, here, parts as int);
                        let rest = wrapped_rows(self@, here + parts, n + 1);
                        assert(before + (drawn + rest) =~= before + drawn + rest);
                    }
                },
                None => {
                    let mut shown: Vec<u8> = Vec::new();
                    text::push_text(&mut shown, "~");
                    assert(shown@ =~= no_line());
                    push_row(buf, screen_row, &shown);
                    screen_row = screen_row + 1;
                    proof {
                        let drawn = row_bytes(here, no_line());
                        let rest = wrapped_rows(self@, here + 1, n + 1);
                        assert(before + (drawn + rest) =~= before + drawn + rest);
                    }
                },
            }
            passed = passed + 1;
        }
        assert(buf@ + wrapped_rows(self@, screen_row as int, self@.top + passed) =~= buf@);
    }

    /// Draw the first parts of a line, from row `row` on.
    fn render_parts(&self, buf: &mut Vec<u8>, w: usize, i: usize, row: usize, parts: usize)
        requires
            self.wf(),
            w == self@.width,
            i < self@.buffer.lines.len(),
            row + parts < 65536,
        ensures
            final(buf)@ == old(buf)@ + wrapped_parts(
                self@,
                self@.buffer.lines[i as int],
                row as int,
                parts as int,
            ),
    {
        let ghost line = self@.buffer.lines[i as int];
        let mut k: usize = 0;
        assert(old(buf)@ + wrapped_parts(self@, line, row as int, 0) =~= old(buf)@);
        while k < parts
            invariant
                self.wf(),
                w == self@.width,
                i < self@.buffer.lines.len(),
                line == self@.buffer.lines[i as int],
                k <= parts,
                row + parts < 65536,
                buf@ == old(buf)@ + wrapped_parts(self@, line, row as int, k as int),
            decreases parts - k,
        {
            assert(0 <= k * w <= 0xfffe_0001) by (nonlinear_arith)
                requires
                    k <= 65535,
                    w <= 65535,
            ;
            let start_col: usize = k * w;
            let display = ansi::truncate_to_width(
                &self.buffer.lines[i],
                start_col,
                w,
                self.raw_mode,
            );
            let mut shown: Vec<u8> = Vec::new();
            self.write_line_with_search(&mut shown, &display, i);
            assert(shown@ =~= wrapped_part(self@, line, k as int));
            push_row(buf, row + k, &shown);
            k = k + 1;
            assert(buf@ =~= old(buf)@ + wrapped_parts(self@, line, row as int, k as int));
        }
    }

    /// Append what is shown of line `line_idx`, of which `display` is the part on the
    /// screen.
    fn write_line_with_search(&self, buf: &mut Vec<u8>, display: &str, line_idx: usize)
        requires
            self.wf(),
            line_idx < self@.buffer.lines.len(),
        ensures
            final(buf)@ == old(buf)@ + painted(
                self@.search,
                self@.buffer.lines[line_idx as int],
                display@,
            ),
    {
        if let Some(search) = &self.search {
            if search.is_match(&self.buffer.lines[line_idx]) {
                let stripped = ansi::strip_ansi(display);
                let matches = search.find_matches_stripped(&stripped);
                if matches.len() > 0 {
                    highlight(buf, &stripped, &matches);
                    return;
                }
            }
        }
        text::push_text(buf, display);
    }

    /// Draw the help screen.
    fn render_help(buf: &mut Vec<u8>, w: usize, ch: usize)
        requires
            ch < 65536,
        ensures
            final(buf)@ == old(buf)@ + help_rows(w as int, ch as int),
    {
        let mut row: usize = 0;
        assert(old(buf)@ + help_rows(w as int, 0) =~= old(buf)@);
        while row < ch
            invariant
                row <= ch < 65536,
                buf@ == old(buf)@ + help_rows(w as int, row as int),
            decreases ch - row,
        {
            let bytes = help_line(row).as_bytes();
            let n: usize = bytes.len();
            let mut shown: Vec<u8> = Vec::new();
            push_part(
                &mut shown,
                bytes,
                0,
                if n > w {
                    w
                } else {
                    n
                },
            );
            assert(shown@ =~= cut(bytes@, w as int));
            push_row(buf, row, &shown);
            row = row + 1;
            assert(buf@ =~= old(buf)@ + help_rows(w as int, row as int));
        }
    }

    /// Draw the status bar.
    fn render_status(&self, buf: &mut Vec<u8>, w: usize)
        requires
            self.wf(),
            w == self@.width,
            status_fits(self@),
        ensures
            final(buf)@ == old(buf)@ + status_bar(self@),
    {
        terminal::move_cursor(buf, self.term_height - 1, 0);
        text::push_text(buf, "\x1b[7m");
        let status = self.build_status();
        let bytes = status.as_str().as_bytes();
        let n: usize = bytes.len();
        let used: usize = if n > w {
            w
        } else {
            n
        };
        push_part(buf, bytes, 0, used);
        assert(bytes@.subrange(0, used as int) =~= cut(bytes@, w as int));
        let label = VERSION_LABEL.as_bytes();
        let right_start: usize = w.saturating_sub(label.len());
        if right_start > used {
            push_blanks(buf, right_start - used);
            push_part(buf, label, 0, label.len());
            assert(label@.subrange(0, label@.len() as int) =~= label@);
        } else {
            push_blanks(buf, w - used);
        }
        text::push_text(buf, "\x1b[m");
        assert(buf@ =~= old(buf)@ + status_bar(self@));
    }

    /// The text of the status bar.
    pub fn build_status(&self) -> (r: String)
        requires
            self.wf(),
        ensures
            r@ == status_text(self@),
    {
        if self.mode == Mode::SearchInput {
            proof {
                self.search_input.lemma_parts();
            }
            let mut s: String = if self.search_dir == SearchDir::Forward {
                "/".to_owned()
            } else {
                "?".to_owned()
            };
            s.push_str(&self.search_input.content);
            return s;
        }
        if self.mode == Mode::FilterInput {
            proof {
                self.filter_input.lemma_parts();
            }
            let mut s: String = "&".to_owned();
            s.push_str(&self.filter_input.content);
            return s;
        }
        if self.mode == Mode::Help {
            return "h: return".to_owned();
        }
        if self.mode == Mode::Follow {
            return "Waiting for data...".to_owned();
        }
        if let Some(msg) = &self.status_msg {
            return msg.clone();
        }
        let mut s = String::new();
        if let Some(name) = &self.filename {
            s.push_str(name);
        }
        assert(s@ =~= match self@.filename {
            Some(name) => name,
            None => Seq::empty(),
        });
        if let Some(f) = &self.filter {
            if !s.as_str().is_empty() {
                s.push_str(" ");
            }
            s.push_str("[&");
            s.push_str(&f.pattern);
            s.push_str("]");
            assert(s@ =~= and_part(
                match self@.filename {
                    Some(name) => name,
                    None => Seq::empty(),
                },
                "[&"@ + f@ + "]"@,
            ));
        }
        if self.wrap {
            if !s.as_str().is_empty() {
                s.push_str(" ");
            }
            s.push_str("[wrap]");
        }
        proof {
            reveal_strlit("[wrap]");
            reveal_strlit("[&");
        }
        if s.as_str().is_empty() {
            ":".to_owned()
        } else {
            s
        }
    }
}

/// Rows of the screen from row `at` on, one below the other: the cursor goes to the
/// start of each, it is filled, and what is left of it is cleared.
pub open spec fn stacked(rows: Seq<Seq<u8>>, at: int) -> Seq<u8>
    decreases rows.len(),
{
    if rows.len() == 0 {
        Seq::empty()
    } else {
        terminal::cursor_to(at as nat, 0) + rows[0] + encode_utf8("\x1b[K"@) + stacked(
            rows.skip(1),
            at + 1,
        )
    }
}

/// Whether the screen is drawn with the given rows above the status bar.
pub open spec fn draws(v: state::PagerView, rows: Seq<Seq<u8>>) -> bool {
    &&& rows.len() == state::rows_for_lines(v.height as int)
    &&& frame(v) == encode_utf8("\x1b[?25l"@) + terminal::cursor_to(0, 0) + stacked(rows, 0)
        + status_bar(v)
}

proof fn lemma_stacked_concat(a: Seq<Seq<u8>>, b: Seq<Seq<u8>>, at: int)
    ensures
        stacked(a + b, at) == stacked(a, at) + stacked(b, at + a.len()),
    decreases a.len(),
{
    if a.len() == 0 {
        assert(a + b =~= b);
        assert(stacked(a, at) + stacked(b, at) =~= stacked(b, at));
    } else {
        lemma_stacked_concat(a.skip(1), b, at + 1);
        assert((a + b).skip(1) =~= a.skip(1) + b);
        assert(stacked(a + b, at) =~= stacked(a, at) + stacked(b, at + a.len()));
    }
}

proof fn lemma_stacked_one(row: Seq<u8>, at: int)
    ensures
        stacked(seq![row], at) == row_bytes(at, row),
{
    assert(seq![row].skip(1) =~= Seq::<Seq<u8>>::empty());
    assert(stacked(Seq::<Seq<u8>>::empty(), at + 1) =~= Seq::<u8>::empty());
    assert(stacked(seq![row], at) =~= row_bytes(at, row));
}

/// What row `r` of the screen holds without wrapping: the part from column `left` on of
/// the line that comes `r` after the top line, or a tilde where there is none.
pub open spec fn unwrapped_row(v: state::PagerView, r: int) -> Seq<u8> {
    if v.top + r < state::count_shown(v) {
        let line = v.buffer.lines[state::nth_shown(v, v.top + r)];
        painted(v.search, line, ansi::window(line, v.left as nat, v.width as nat, v.raw))
    } else {
        encode_utf8("~"@)
    }
}

/// The rows of the screen without wrapping.
pub open spec fn unwrapped_rows(v: state::PagerView, n: int) -> Seq<Seq<u8>> {
    Seq::new(n as nat, |r: int| unwrapped_row(v, r))
}

proof fn lemma_plain_rows(v: state::PagerView, n: int)
    requires
        v.wf(),
        0 <= n,
    ensures
        plain_rows(v, n) == stacked(unwrapped_rows(v, n), 0),
    decreases n,
{
    if n > 0 {
        lemma_plain_rows(v, n - 1);
        let before = unwrapped_rows(v, n - 1);
        let row = unwrapped_row(v, n - 1);
        assert(unwrapped_rows(v, n) =~= before + seq![row]);
        lemma_stacked_concat(before, seq![row], 0);
        lemma_stacked_one(row, n - 1);
        let k = v.top + n - 1;
        if v.filter is Some && k < v.filtered.len() {
            assert(v.filtered[k] < v.buffer.lines.len());
        }
        assert(plain_row(v, n - 1) == row);
    } else {
        assert(unwrapped_rows(v, 0) =~= Seq::<Seq<u8>>::empty());
    }
}

/// Without wrapping, and outside the help screen, each row shows one of the lines from
/// the top line on, in their order.
pub proof fn law_unwrapped_screen(v: state::PagerView)
    requires
        v.wf(),
        !v.wrap,
        v.mode != Mode::Help,
    ensures
        draws(v, unwrapped_rows(v, state::rows_for_lines(v.height as int))),
{
    lemma_plain_rows(v, v.content_height());
}

/// Scrolling by `d` lines moves what is shown: row `r` after it holds what row `r + d`
/// held before.
#[verifier::rlimit(50)]
#[verifier::spinoff_prover]
pub proof fn law_screen_scrolls(v: state::PagerView, d: int)
    requires
        v.wf(),
        !v.wrap,
        v.mode != Mode::Help,
        0 <= d,
        v.top + d < state::count_shown(v),
    ensures
        ({
            let w = state::PagerView { top: v.top + d, ..v };
            exists|before: Seq<Seq<u8>>, after: Seq<Seq<u8>>|
                #![trigger draws(v, before), draws(w, after)]
                draws(v, before) && draws(w, after) && forall|r: int|
                    0 <= r && r + d < state::rows_for_lines(v.height as int)
                        ==> #[trigger] after[r] == before[r + d]
        }),
{
    let w = state::PagerView { top: v.top + d, ..v };
    let h = state::rows_for_lines(v.height as int);
    law_unwrapped_screen(v);
    law_unwrapped_screen(w);
    let before = unwrapped_rows(v, h);
    let after = unwrapped_rows(w, h);
    assert forall|r: int| 0 <= r && r + d < h implies #[trigger] after[r] == before[r + d] by {
        assert(after[r] == unwrapped_row(w, r));
        assert(before[r + d] == unwrapped_row(v, r + d));
    }
    assert(draws(v, before) && draws(w, after));
}

/// What row `k` of the line that comes `n`-th among those that are shown holds, where
/// lines are wrapped: as many columns of it as the screen has, after those of the rows
/// before.
pub open spec fn wrapped_row(v: state::PagerView, n: int, k: int) -> Seq<u8> {
    let line = v.buffer.lines[state::nth_shown(v, n)];
    painted(v.search, line, ansi::window(line, (k * v.width) as nat, v.width as nat, v.raw))
}

proof fn lemma_wrapped_parts(v: state::PagerView, n: int, row: int, parts: int) -> (rows: Seq<
    Seq<u8>,
>)
    requires
        0 <= parts,
    ensures
        rows.len() == parts,
        forall|k: int| 0 <= k < parts ==> #[trigger] rows[k] == wrapped_row(v, n, k),
        wrapped_parts(v, v.buffer.lines[state::nth_shown(v, n)], row, parts) == stacked(rows, row),
    decreases parts,
{
    if parts == 0 {
        Seq::empty()
    } else {
        let before = lemma_wrapped_parts(v, n, row, parts - 1);
        let last = wrapped_row(v, n, parts - 1);
        lemma_stacked_concat(before, seq![last], row);
        lemma_stacked_one(last, row + parts - 1);
        before + seq![last]
    }
}

#[verifier::rlimit(60)]
#[verifier::spinoff_prover]
proof fn lemma_wrapped_rows(v: state::PagerView, row: int, n: int) -> (rows: Seq<Seq<u8>>)
    requires
        v.wf(),
        0 <= n,
        0 <= row <= v.content_height(),
    ensures
        rows.len() == v.content_height() - row,
        wrapped_rows(v, row, n) == stacked(rows, row),
        forall|m: int, k: int|
            #![trigger wrapped_row(v, m, k)]
            n <= m < state::count_shown(v) && 0 <= k < v.page().rows(m) && row
                + v.page().rows_between(n, m) + k < v.content_height()
                ==> rows[v.page().rows_between(n, m) + k] == wrapped_row(v, m, k),
        forall|r: int|
            0 <= r < rows.len() && v.page().rows_from(n) <= r ==> #[trigger] rows[r]
                == encode_utf8("~"@),
    decreases v.content_height() - row,
{
    let h = v.content_height();
    let p = v.page();
    let total = state::count_shown(v);
    assert(p.buffer.lines.len() == total);
    if row >= h {
        assert forall|m: int| n <= m implies #[trigger] p.rows_between(n, m) >= 0 by {
            p.lemma_some_rows(n, m);
        }
        Seq::empty()
    } else if n < total {
        if v.filter is Some {
            assert(v.filtered[n] < v.buffer.lines.len());
        }
        let i = state::nth_shown(v, n);
        assert(v.line_at(n) == Some(i));
        let line = v.buffer.lines[i];
        assert(p.buffer.lines[n] == line);
        p.lemma_rows(n);
        let need = p.rows(n);
        let parts = parts_shown(v, line, row);
        assert(1 <= parts <= need);
        let here = lemma_wrapped_parts(v, n, row, parts);
        let rest = lemma_wrapped_rows(v, row + parts, n + 1);
        lemma_stacked_concat(here, rest, row);
        let rows = here + rest;
        assert forall|m: int, k: int|
            #![trigger wrapped_row(v, m, k)]
            n <= m < total && 0 <= k < p.rows(m) && row + p.rows_between(n, m) + k
                < h implies rows[p.rows_between(n, m) + k] == wrapped_row(v, m, k) by {
            if m == n {
                assert(p.rows_between(n, n) == 0);
                assert(rows[k] == here[k]);
            } else {
                assert(p.rows_between(n, m) == need + p.rows_between(n + 1, m));
                p.lemma_some_rows(n + 1, m);
                assert(parts == need);
                assert(rows[p.rows_between(n, m) + k] == rest[p.rows_between(n + 1, m) + k]);
            }
        }
        assert forall|r: int| 0 <= r < rows.len() && p.rows_from(n) <= r implies #[trigger] rows[r]
            == encode_utf8("~"@) by {
            assert(p.rows_from(n) == need + p.rows_from(n + 1));
            p.lemma_some_rows(n + 1, total);
            assert(parts == need);
            assert(rows[r] == rest[r - need]);
        }
        rows
    } else {
        assert(v.line_at(n) is None);
        let rest = lemma_wrapped_rows(v, row + 1, n + 1);
        let blank = no_line();
        lemma_stacked_concat(seq![blank], rest, row);
        lemma_stacked_one(blank, row);
        let rows = seq![blank] + rest;
        assert(p.rows_from(n) == 0);
        assert(p.rows_from(n + 1) == 0);
        assert forall|r: int| 0 <= r < rows.len() implies #[trigger] rows[r]
            == encode_utf8("~"@) by {
            if r > 0 {
                assert(rows[r] == rest[r - 1]);
            }
        }
        rows
    }
}

/// With wrapping, the lines from the top line on follow one another, each in as many
/// rows as it needs, as far as the screen goes; the rows after the last line hold a
/// tilde.
pub proof fn law_wrapped_screen(v: state::PagerView) -> (rows: Seq<Seq<u8>>)
    requires
        v.wf(),
        v.wrap,
        v.mode != Mode::Help,
    ensures
        draws(v, rows),
        forall|n: int, k: int|
            #![trigger wrapped_row(v, n, k)]
            v.top <= n < state::count_shown(v) && 0 <= k < v.page().rows(n)
                && v.page().rows_between(v.top, n) + k < rows.len()
                ==> rows[v.page().rows_between(v.top, n) + k] == wrapped_row(v, n, k),
        forall|r: int|
            0 <= r < rows.len() && v.page().rows_from(v.top) <= r ==> #[trigger] rows[r]
                == encode_utf8("~"@),
{
    lemma_wrapped_rows(v, 0, v.top)
}

/// The help screen shows its lines from the first on, cut to the screen.
pub proof fn law_help_screen(v: state::PagerView) -> (rows: Seq<Seq<u8>>)
    requires
        v.height >= 1,
        v.mode == Mode::Help,
    ensures
        draws(v, rows),
        forall|r: int|
            0 <= r < rows.len() ==> #[trigger] rows[r] == ({
                let bytes = encode_utf8(help_text(r));
                bytes.take(
                    if bytes.len() > v.width {
                        v.width as int
                    } else {
                        bytes.len() as int
                    },
                )
            }),
{
    lemma_help_rows(v.width as int, v.content_height())
}

proof fn lemma_help_rows(w: int, n: int) -> (rows: Seq<Seq<u8>>)
    requires
        0 <= n,
        0 <= w,
    ensures
        rows.len() == n,
        help_rows(w, n) == stacked(rows, 0),
        forall|r: int|
            0 <= r < n ==> #[trigger] rows[r] == ({
                let bytes = encode_utf8(help_text(r));
                bytes.take(
                    if bytes.len() > w {
                        w
                    } else {
                        bytes.len() as int
                    },
                )
            }),
    decreases n,
{
    if n == 0 {
        Seq::empty()
    } else {
        let before = lemma_help_rows(w, n - 1);
        let bytes = encode_utf8(help_text(n - 1));
        let last = cut(bytes, w);
        assert(bytes.take(bytes.len() as int) =~= bytes);
        lemma_stacked_concat(before, seq![last], 0);
        lemma_stacked_one(last, n - 1);
        before + seq![last]
    }
}

/// The status bar is in the last row, in reverse colours: as much of its text as fits,
/// then spaces, and the name of the program at the right if there is room for it and a
/// space.
#[verifier::rlimit(50)]
#[verifier::spinoff_prover]
pub proof fn law_status_bar(v: state::PagerView) -> (row: Seq<u8>)
    requires
        v.height >= 1,
    ensures
        status_bar(v) == terminal::cursor_to((v.height - 1) as nat, 0) + encode_utf8("\x1b[7m"@)
            + row + encode_utf8("\x1b[m"@),
        row.len() == v.width,
        ({
            let text = encode_utf8(status_text(v));
            let label = encode_utf8("lz 0.1.0"@);
            if text.len() >= v.width {
                row == text.take(v.width as int)
            } else {
                let gap = if text.len() + label.len() < v.width {
                    v.width - text.len() - label.len()
                } else {
                    v.width - text.len()
                };
                &&& row.take(text.len() as int) == text
                &&& forall|i: int| text.len() <= i < text.len() + gap ==> #[trigger] row[i] == 32
                &&& text.len() + gap < v.width ==> row.skip(text.len() + gap) == label
            }
        }),
{
    let text = encode_utf8(status_text(v));
    let label = encode_utf8(VERSION_LABEL@);
    let row = status_row(text, v.width as int);
    let w = v.width as int;
    assert(cut(text, w).len() <= w);
    if text.len() >= w {
        assert(text.take(text.len() as int) =~= text);
        assert(row =~= text.take(w));
    } else {
        assert(row.take(text.len() as int) =~= text);
        if text.len() + label.len() < w {
            assert(row.skip(w - label.len()) =~= label);
        }
    }
    row
}

/// What the status bar says: what is typed after the sign that it is for, a message, or
/// else the name of the file, the filter and whether lines are wrapped, as far as there
/// are such, and a colon where there are none.
#[verifier::rlimit(50)]
#[verifier::spinoff_prover]
pub proof fn law_status_text(v: state::PagerView)
    ensures
        ({
            let text = status_text(v);
            let name = match v.filename {
                Some(name) => name,
                None => Seq::empty(),
            };
            let front = if name.len() > 0 {
                name + " "@
            } else {
                Seq::empty()
            };
            let typed = v.search_input.before + v.search_input.after;
            match v.mode {
                Mode::SearchInput => text == (if v.dir == SearchDir::Backward {
                    "?"@
                } else {
                    "/"@
                }) + typed,
                Mode::FilterInput => text == "&"@ + v.filter_input.before + v.filter_input.after,
                Mode::Help => text == "h: return"@,
                Mode::Follow => text == "Waiting for data..."@,
                Mode::Normal => {
                    &&& v.status matches Some(message) ==> text == message
                    &&& v.status is None && v.filter is None && !v.wrap ==> text == if name.len()
                        > 0 {
                        name
                    } else {
                        ":"@
                    }
                    &&& v.status is None && v.filter is None && v.wrap ==> text == front
                        + "[wrap]"@
                    &&& v.status is None && !v.wrap ==> (v.filter matches Some(p) ==> text == front
                        + "[&"@ + p + "]"@)
                    &&& v.status is None && v.wrap ==> (v.filter matches Some(p) ==> text == front
                        + "[&"@ + p + "]"@ + " "@ + "[wrap]"@)
                },
            }
        }),
{
    let name = match v.filename {
        Some(name) => name,
        None => Seq::empty(),
    };
    let front = if name.len() > 0 {
        name + " "@
    } else {
        Seq::empty()
    };
    reveal_strlit("[wrap]");
    reveal_strlit("[&");
    reveal_strlit("]");
    reveal_strlit(" ");
    assert("&"@ + v.filter_input.content() =~= "&"@ + v.filter_input.before
        + v.filter_input.after);
    if v.mode == Mode::Normal && v.status is None {
        if let Some(p) = v.filter {
            if v.wrap {
                assert(status_text(v) =~= front + "[&"@ + p + "]"@ + " "@ + "[wrap]"@);
            } else {
                assert(status_text(v) =~= front + "[&"@ + p + "]"@);
            }
        } else if v.wrap {
            assert(status_text(v) =~= front + "[wrap]"@);
        }
    }
}

/// Ranges as they are counted from `at` on.
pub open spec fn counted_from(ranges: Seq<(usize, usize)>, at: int) -> Seq<(usize, usize)> {
    ranges.map_values(|r: (usize, usize)| ((r.0 - at) as usize, (r.1 - at) as usize))
}

#[verifier::rlimit(50)]
#[verifier::spinoff_prover]
proof fn lemma_marked_front(bytes: Seq<u8>, ranges: Seq<(usize, usize)>, k: int)
    requires
        ordered(bytes, ranges),
        1 <= k <= ranges.len(),
    ensures
        ({
            let (start, end) = (ranges[0].0 as int, ranges[0].1 as int);
            let rest = counted_from(ranges.skip(1), end);
            &&& marked(bytes, ranges, k) == bytes.take(start) + encode_utf8("\x1b[30;43m"@)
                + bytes.subrange(start, end) + encode_utf8("\x1b[m"@) + marked(
                bytes.skip(end),
                rest,
                k - 1,
            )
            &&& range_start(ranges, k) == end + range_start(rest, k - 1)
            &&& end <= range_start(ranges, k) <= bytes.len()
        }),
    decreases k,
{
    let start = ranges[0].0 as int;
    let end = ranges[0].1 as int;
    let rest = counted_from(ranges.skip(1), end);
    let tail = bytes.skip(end);
    let on = encode_utf8("\x1b[30;43m"@);
    let off = encode_utf8("\x1b[m"@);
    if k == 1 {
        assert(marked(bytes, ranges, 0) =~= Seq::<u8>::empty());
        assert(bytes.subrange(0, start) =~= bytes.take(start));
        assert(marked(bytes, ranges, 1) =~= bytes.take(start) + on + bytes.subrange(start, end)
            + off + marked(tail, rest, 0));
    } else {
        lemma_marked_front(bytes, ranges, k - 1);
        let head = bytes.take(start) + on + bytes.subrange(start, end) + off;
        let s = ranges[k - 1].0 as int;
        let e = ranges[k - 1].1 as int;
        let at = range_start(ranges, k - 1);
        assert(rest[k - 2] == ((s - end) as usize, (e - end) as usize));
        assert(tail.subrange(at - end, s - end) =~= bytes.subrange(at, s));
        assert(tail.subrange(s - end, e - end) =~= bytes.subrange(s, e));
        assert(marked(bytes, ranges, k) =~= head + marked(tail, rest, k - 1));
    }
}

/// A text with its ranges marked: up to the first it is as it was, that is in black on
/// yellow, and what comes after has the others marked. No range is left out.
#[verifier::rlimit(50)]
#[verifier::spinoff_prover]
pub proof fn law_highlight(bytes: Seq<u8>, ranges: Seq<(usize, usize)>)
    requires
        ordered(bytes, ranges),
    ensures
        ranges.len() == 0 ==> highlighted(bytes, ranges) == bytes,
        ranges.len() > 0 ==> highlighted(bytes, ranges) == ({
            let (start, end) = (ranges[0].0 as int, ranges[0].1 as int);
            bytes.take(start) + encode_utf8("\x1b[30;43m"@) + bytes.subrange(start, end)
                + encode_utf8("\x1b[m"@) + highlighted(
                bytes.skip(end),
                counted_from(ranges.skip(1), end),
            )
        }),
{
    let n = ranges.len() as int;
    if n == 0 {
        assert(highlighted(bytes, ranges) =~= bytes);
    } else {
        lemma_marked_front(bytes, ranges, n);
        let start = ranges[0].0 as int;
        let end = ranges[0].1 as int;
        let rest = counted_from(ranges.skip(1), end);
        let tail = bytes.skip(end);
        let at = range_start(ranges, n);
        assert(tail.subrange(at - end, tail.len() as int) =~= bytes.subrange(
            at,
            bytes.len() as int,
        ));
        assert(highlighted(bytes, ranges) =~= bytes.take(start) + encode_utf8("\x1b[30;43m"@)
            + bytes.subrange(start, end) + encode_utf8("\x1b[m"@) + highlighted(tail, rest));
    }
}

/// What is shown of a line: without a pattern, or where it does not match the line or
/// the part of it on the screen, that part as it is; else the text of that part with all
/// ranges marked that match.
pub proof fn law_painted(pattern: Option<Seq<char>>, line: Seq<char>, display: Seq<char>)
    ensures
        ({
            let text = ansi::visible_text(display);
            &&& pattern is None ==> painted(pattern, line, display) == encode_utf8(display)
            &&& pattern matches Some(p) ==> {
                &&& !search::text_matches(p, ansi::visible_text(line)) ==> painted(
                    pattern,
                    line,
                    display,
                ) == encode_utf8(display)
                &&& search::match_ranges(p, text).len() == 0 ==> painted(pattern, line, display)
                    == encode_utf8(display)
                &&& search::text_matches(p, ansi::visible_text(line)) && search::match_ranges(
                    p,
                    text,
                ).len() > 0 ==> painted(pattern, line, display) == highlighted(
                    encode_utf8(text),
                    search::match_ranges(p, text),
                )
            }
        }),
{
}

/// The text on the screen is that of the part of the line, whether matches are marked in
/// it or not.
pub proof fn law_painted_keeps_text(
    pattern: Option<Seq<char>>,
    line: Seq<char>,
    display: Seq<char>,
)
    requires
        pattern matches Some(p) ==> regexp::are_ranges(
            search::match_ranges(p, ansi::visible_text(display)),
            ansi::visible_text(display),
        ),
    ensures
        ({
            let bytes = painted(pattern, line, display);
            valid_utf8(bytes) && ansi::visible_text(decode_utf8(bytes)) == ansi::visible_text(
                display,
            )
        }),
{
    let text = ansi::visible_text(display);
    encode_utf8_valid_utf8(display);
    encode_utf8_decode_utf8(display);
    ansi::law_stripped_has_no_escape(display);
    if let Some(p) = pattern {
        law_highlight_keeps_text(text, search::match_ranges(p, text));
    }
}

/// When the screen can be drawn: where the text of the status bar fits, or can be cut
/// between characters. What is shown of it is then text.
pub proof fn law_status_fits(v: state::PagerView)
    ensures
        ({
            let bytes = encode_utf8(status_text(v));
            let w = v.width as int;
            &&& bytes.len() <= w ==> status_fits(v)
            &&& bytes.len() > w ==> (status_fits(v) <==> is_char_boundary(bytes, w))
            &&& status_fits(v) && bytes.len() > w ==> valid_utf8(bytes.take(w))
        }),
{
    let bytes = encode_utf8(status_text(v));
    let w = v.width as int;
    encode_utf8_valid_utf8(status_text(v));
    if bytes.len() > w && is_char_boundary(bytes, w) {
        valid_utf8_split(bytes, w);
        assert(bytes.take(w) =~= bytes.subrange(0, w));
    }
}

} // verus!

//! Escape sequences in text: finding them, removing them, and cutting a line
//! to the columns of a screen without losing its colours.
use crate::text::{chars_of, same_text, string_of};
use crate::width;
use vstd::prelude::*;

verus! {

/// The character that starts every escape sequence.
pub const ESC: char = '\x1b';

/// The terminator of an operating system command.
pub const BEL: char = '\x07';

/// One past the first final character (`@` to `~`) of a control sequence at or
/// after `i`, or the end of `s`.
pub open spec fn csi_end(s: Seq<char>, i: int) -> int
    decreases s.len() - i,
{
    if i < 0 || i >= s.len() {
        s.len() as int
    } else if '@' <= s[i] <= '~' {
        i + 1
    } else {
        csi_end(s, i + 1)
    }
}

/// One past the first terminator (BEL, or ESC and a backslash) at or after `i`,
/// or the end of `s`.
pub open spec fn osc_end(s: Seq<char>, i: int) -> int
    decreases s.len() - i,
{
    if i < 0 || i >= s.len() {
        s.len() as int
    } else if s[i] == BEL {
        i + 1
    } else if s[i] == ESC && i + 1 < s.len() && s[i + 1] == '\\' {
        i + 2
    } else {
        osc_end(s, i + 1)
    }
}

/// Number of characters of the escape sequence that `s` starts with; 0 if it
/// starts with none.
pub open spec fn escape_len(s: Seq<char>) -> int {
    if s.len() == 0 || s[0] != ESC {
        0
    } else if s.len() == 1 {
        1
    } else if s[1] == '[' {
        csi_end(s, 2)
    } else if s[1] == ']' {
        osc_end(s, 2)
    } else if ' ' <= s[1] <= '/' {
        if s.len() > 2 {
            3
        } else {
            2
        }
    } else {
        2
    }
}

/// A control sequence ends within the text.
pub proof fn lemma_csi_end(s: Seq<char>, i: int)
    requires
        0 <= i <= s.len(),
    ensures
        i <= csi_end(s, i) <= s.len(),
    decreases s.len() - i,
{
    if i < s.len() && !('@' <= s[i] <= '~') {
        lemma_csi_end(s, i + 1);
    }
}

/// An operating system command ends within the text.
pub proof fn lemma_osc_end(s: Seq<char>, i: int)
    requires
        0 <= i <= s.len(),
    ensures
        i <= osc_end(s, i) <= s.len(),
    decreases s.len() - i,
{
    if i < s.len() {
        lemma_osc_end(s, i + 1);
    }
}

/// An escape sequence lies within the text, and is there exactly where an ESC is.
pub proof fn lemma_escape_len(s: Seq<char>)
    ensures
        0 <= escape_len(s) <= s.len(),
        escape_len(s) > 0 <==> s.len() > 0 && s[0] == ESC,
{
    if s.len() >= 2 {
        lemma_csi_end(s, 2);
        lemma_osc_end(s, 2);
    }
}

/// The text that is left when all escape sequences are taken out.
pub open spec fn visible_text(s: Seq<char>) -> Seq<char>
    decreases s.len(),
{
    if s.len() == 0 {
        Seq::empty()
    } else if escape_len(s) > 0 {
        proof {
            lemma_escape_len(s);
        }
        visible_text(s.skip(escape_len(s)))
    } else {
        seq![s[0]] + visible_text(s.skip(1))
    }
}

/// Text without an ESC is visible as it is.
pub proof fn law_plain_text_is_visible(s: Seq<char>)
    requires
        !s.contains(ESC),
    ensures
        visible_text(s) == s,
    decreases s.len(),
{
    if s.len() > 0 {
        assert(s.contains(s[0]));
        lemma_escape_len(s);
        let rest = s.skip(1);
        assert forall|c: char| rest.contains(c) implies s.contains(c) by {
            let i = choose|i: int| 0 <= i < rest.len() && rest[i] == c;
            assert(s[i + 1] == c);
        }
        law_plain_text_is_visible(rest);
        assert(s =~= seq![s[0]] + rest);
    }
}

/// No ESC is left in the visible text.
pub proof fn law_stripped_has_no_escape(s: Seq<char>)
    ensures
        !visible_text(s).contains(ESC),
    decreases s.len(),
{
    lemma_escape_len(s);
    if s.len() > 0 {
        if escape_len(s) > 0 {
            law_stripped_has_no_escape(s.skip(escape_len(s)));
        } else {
            let rest = visible_text(s.skip(1));
            law_stripped_has_no_escape(s.skip(1));
            let v = visible_text(s);
            assert(v =~= seq![s[0]] + rest);
            assert forall|i: int| 0 <= i < v.len() implies v[i] != ESC by {
                if i > 0 {
                    assert(v[i] == rest[i - 1]);
                    assert(rest.contains(rest[i - 1]));
                }
            }
        }
    }
}

/// Stripping a second time changes nothing.
pub proof fn law_strip_twice(s: Seq<char>)
    ensures
        visible_text(visible_text(s)) == visible_text(s),
{
    law_stripped_has_no_escape(s);
    law_plain_text_is_visible(visible_text(s));
}

/// Length, in characters, of the escape sequence at `chars[pos]`, or 0.
pub fn escape_seq_len(chars: &[char], pos: usize) -> (r: usize)
    requires
        pos < chars@.len(),
    ensures
        r == escape_len(chars@.skip(pos as int)),
        r <= chars@.len() - pos,
{
    let ghost s = chars@.skip(pos as int);
    proof {
        lemma_escape_len(s);
    }
    if chars[pos] != ESC {
        return 0;
    }
    let n: usize = chars.len();
    let rest: usize = n - pos;
    if rest == 1 {
        return 1;
    }
    let kind: char = chars[pos + 1];
    if kind == '[' {
        let mut i: usize = 2;
        while i < rest
            invariant
                2 <= i <= rest,
                pos + rest == n,
                n == chars@.len(),
                s == chars@.skip(pos as int),
                csi_end(s, i as int) == escape_len(s),
            decreases rest - i,
        {
            let c: char = chars[pos + i];
            assert(c == s[i as int]);
            if '@' <= c && c <= '~' {
                return i + 1;
            }
            i = i + 1;
        }
        rest
    } else if kind == ']' {
        let mut i: usize = 2;
        while i < rest
            invariant
                2 <= i <= rest,
                pos + rest == n,
                n == chars@.len(),
                s == chars@.skip(pos as int),
                osc_end(s, i as int) == escape_len(s),
            decreases rest - i,
        {
            let c: char = chars[pos + i];
            assert(c == s[i as int]);
            if c == BEL {
                return i + 1;
            }
            if c == ESC && i + 1 < rest && chars[pos + i + 1] == '\\' {
                return i + 2;
            }
            i = i + 1;
        }
        rest
    } else if ' ' <= kind && kind <= '/' {
        if rest > 2 {
            3
        } else {
            2
        }
    } else {
        2
    }
}

/// Strip all escape sequences from a line, returning visible text only.
pub fn strip_ansi(line: &str) -> (r: String)
    ensures
        r@ == visible_text(line@),
{
    let chars = chars_of(line);
    let mut out = String::new();
    let mut i: usize = 0;
    assert(line@.skip(0) =~= line@);
    while i < chars.len()
        invariant
            chars@ == line@,
            i <= chars@.len(),
            out@ + visible_text(line@.skip(i as int)) =~= visible_text(line@),
        decreases chars@.len() - i,
    {
        let ghost s = line@.skip(i as int);
        let esc: usize = escape_seq_len(&chars, i);
        if esc > 0 {
            assert(s.skip(esc as int) =~= line@.skip(i + esc));
            i = i + esc;
        } else {
            assert(s.skip(1) =~= line@.skip(i + 1));
            out.push(chars[i]);
            i = i + 1;
        }
    }
    assert(visible_text(line@.skip(chars@.len() as int)) =~= Seq::<char>::empty());
    out
}

/// Compute the visible (display) width of a line, ignoring escape sequences.
pub fn visible_width(line: &str) -> (r: usize)
    ensures
        r == width::display_columns(visible_text(line@)),
{
    let stripped = strip_ansi(line);
    width::display_width(&stripped)
}

/// The sequence that resets colours and styles.
pub open spec fn sgr_reset() -> Seq<char> {
    "\x1b[m"@
}

/// Whether an escape sequence sets colours or styles.
pub open spec fn is_sgr(seq: Seq<char>) -> bool {
    seq.len() >= 3 && seq[0] == ESC && seq[1] == '[' && seq.last() == 'm'
}

/// Whether an escape sequence resets colours and styles.
pub open spec fn is_reset(seq: Seq<char>) -> bool {
    seq == "\x1b[m"@ || seq == "\x1b[0m"@
}

/// The style sequences in force after `seq`, given those before it.
pub open spec fn restyle(style: Seq<char>, seq: Seq<char>) -> Seq<char> {
    if !is_sgr(seq) {
        style
    } else if is_reset(seq) {
        Seq::empty()
    } else {
        style + seq
    }
}

/// The style sequences in force after a text, given those before it.
pub open spec fn style_after(s: Seq<char>, style: Seq<char>) -> Seq<char>
    decreases s.len(),
{
    if s.len() == 0 {
        style
    } else if escape_len(s) > 0 {
        proof {
            lemma_escape_len(s);
        }
        let e = escape_len(s);
        style_after(s.skip(e), restyle(style, s.take(e)))
    } else {
        style_after(s.skip(1), style)
    }
}

/// `n` spaces.
pub open spec fn spaces(n: nat) -> Seq<char> {
    Seq::new(n, |i: int| ' ')
}

/// Columns that a character takes when it starts at column `col`: a tab reaches
/// to the next multiple of 8.
pub open spec fn cell_width(c: char, col: nat, raw: bool) -> nat {
    if c == '\t' {
        (8 - col % 8) as nat
    } else if raw {
        width::raw_columns(c)
    } else {
        width::columns(c)
    }
}

/// What is shown for a character that takes `w` columns.
pub open spec fn cell(c: char, w: nat) -> Seq<char> {
    if c == '\t' {
        spaces(w)
    } else {
        seq![c]
    }
}

/// Where the visible part of a line begins.
pub struct Opening {
    /// Style sequences in force there.
    pub style: Seq<char>,
    /// Columns that a character which begins before it still takes there.
    pub pad: nat,
    /// The text from there on.
    pub rest: Seq<char>,
    /// The column of `rest`.
    pub col: nat,
}

/// Skip the columns of `s` before `start`, where `s` begins at column `col` under
/// `style`. `None` if the text ends first.
pub open spec fn opening(s: Seq<char>, col: nat, style: Seq<char>, start: nat) -> Option<Opening>
    decreases s.len(),
{
    if s.len() == 0 {
        None
    } else if escape_len(s) > 0 {
        proof {
            lemma_escape_len(s);
        }
        let e = escape_len(s);
        opening(s.skip(e), col, restyle(style, s.take(e)), start)
    } else {
        let w = cell_width(s[0], col, false);
        if col + w < start {
            opening(s.skip(1), col + w, style, start)
        } else if col + w == start {
            Some(Opening { style, pad: 0, rest: s.skip(1), col: col + w })
        } else if col < start {
            Some(Opening { style, pad: (col + w - start) as nat, rest: s.skip(1), col: col + w })
        } else {
            Some(Opening { style, pad: 0, rest: s, col })
        }
    }
}

/// The text of `s`, with its escape sequences, as far as it fits: `s` begins at
/// column `col`, and `used` of the `max` columns of the screen are taken. A
/// character that is too wide for what is left gives way to a space.
pub open spec fn shown(s: Seq<char>, col: nat, used: nat, max: nat) -> Seq<char>
    decreases s.len(),
{
    if s.len() == 0 || used >= max {
        Seq::empty()
    } else if escape_len(s) > 0 {
        proof {
            lemma_escape_len(s);
        }
        let e = escape_len(s);
        s.take(e) + shown(s.skip(e), col, used, max)
    } else {
        let w = cell_width(s[0], col, false);
        if used + w > max {
            spaces(1)
        } else {
            cell(s[0], w) + shown(s.skip(1), col + w, used + w, max)
        }
    }
}

/// The literal text of `s` as far as it fits.
pub open spec fn raw_shown(s: Seq<char>, col: nat, used: nat, max: nat) -> Seq<char>
    decreases s.len(),
{
    if s.len() == 0 {
        Seq::empty()
    } else {
        let w = cell_width(s[0], col, true);
        if used + w > max {
            Seq::empty()
        } else {
            cell(s[0], w) + raw_shown(s.skip(1), col + w, used + w, max)
        }
    }
}

/// The literal text of `s` from column `start` on, as far as it fits.
pub open spec fn raw_window(s: Seq<char>, col: nat, start: nat, max: nat) -> Seq<char>
    decreases s.len(),
{
    if s.len() == 0 {
        Seq::empty()
    } else if col >= start {
        raw_shown(s, col, 0, max)
    } else {
        let w = cell_width(s[0], col, true);
        if col + w > start {
            let left = (col + w - start) as nat;
            let pad = if left < max {
                left
            } else {
                max
            };
            spaces(pad) + raw_shown(s.skip(1), col + w, pad, max)
        } else {
            raw_window(s.skip(1), col + w, start, max)
        }
    }
}

/// The lesser of two numbers.
pub open spec fn least(a: nat, b: nat) -> nat {
    if a < b {
        a
    } else {
        b
    }
}

/// What shows from where the visible part begins: the style, spaces for the rest of
/// a character that begins before, and the text.
pub open spec fn opened(o: Opening, max: nat) -> Seq<char> {
    let pad = least(o.pad, max);
    o.style + spaces(pad) + shown(o.rest, o.col, pad, max)
}

/// Whether a style is in force where the visible part begins, or where it ends.
pub open spec fn is_styled(o: Opening, max: nat) -> bool {
    let text = shown(o.rest, o.col, least(o.pad, max), max);
    o.style.len() > 0 || style_after(text, o.style).len() > 0
}

/// The part of a line that shows in `max` columns from column `start` on. The
/// style in force there comes first. It is reset at the end, and so is one that is
/// set in between and still in force.
pub open spec fn window(line: Seq<char>, start: nat, max: nat, raw: bool) -> Seq<char> {
    if raw {
        raw_window(line, 0, start, max)
    } else if max == 0 {
        Seq::empty()
    } else {
        match opening(line, 0, Seq::empty(), start) {
            None => Seq::empty(),
            Some(o) => {
                let body = opened(o, max);
                if is_styled(o, max) {
                    body + sgr_reset()
                } else {
                    body
                }
            },
        }
    }
}

/// Whether an escape sequence sets colours or styles.
pub fn is_sgr_sequence(seq: &str) -> (r: bool)
    ensures
        r == is_sgr(seq@),
{
    let chars = chars_of(seq);
    let n: usize = chars.len();
    n >= 3 && chars[0] == ESC && chars[1] == '[' && chars[n - 1] == 'm'
}

/// Whether an escape sequence resets colours and styles.
pub fn is_sgr_reset(seq: &str) -> (r: bool)
    ensures
        r == is_reset(seq@),
{
    same_text(seq, "\x1b[m") || same_text(seq, "\x1b[0m")
}

/// Columns that a character takes when it starts at column `col`.
fn cell_columns(c: char, col: u128, raw: bool) -> (w: u128)
    ensures
        w == cell_width(c, col as nat, raw),
        w <= 8,
{
    if c == '\t' {
        8 - col % 8
    } else {
        match width::char_width(c) {
            Some(w) => w as u128,
            None => {
                if raw {
                    1
                } else {
                    0
                }
            },
        }
    }
}

/// Append `n` spaces.
fn push_spaces(out: &mut String, n: u128)
    ensures
        final(out)@ == old(out)@ + spaces(n as nat),
{
    let mut i: u128 = 0;
    while i < n
        invariant
            i <= n,
            out@ =~= old(out)@ + spaces(i as nat),
        decreases n - i,
    {
        out.push(' ');
        i = i + 1;
    }
}

/// Append what is shown for a character that takes `w` columns.
fn push_cell(out: &mut String, c: char, w: u128)
    ensures
        final(out)@ == old(out)@ + cell(c, w as nat),
{
    if c == '\t' {
        push_spaces(out, w);
    } else {
        out.push(c);
        assert(out@ =~= old(out)@ + seq![c]);
    }
}

/// Truncate a line for display at a given horizontal offset and max width.
/// The style in force at the offset is kept, so that colours work.
/// In raw mode, escapes are treated as visible characters.
pub fn truncate_to_width(line: &str, start_col: usize, max_width: usize, raw_mode: bool) -> (r:
    String)
    ensures
        r@ == window(line@, start_col as nat, max_width as nat, raw_mode),
{
    if raw_mode {
        return truncate_raw(line, start_col, max_width);
    }
    let chars = chars_of(line);
    let n: usize = chars.len();
    let start: u128 = start_col as u128;
    let max: u128 = max_width as u128;
    let mut out = String::new();
    let mut col: u128 = 0;
    let mut emitting: bool = false;
    let mut used: u128 = 0;
    let mut style = String::new();
    let mut replayed: bool = false;
    let ghost whole = opening(line@, 0, Seq::empty(), start as nat);
    let ghost mut body: Seq<char> = Seq::empty();
    let ghost mut last: Seq<char> = Seq::empty();
    let mut i: usize = 0;
    assert(line@.skip(0) =~= line@);
    while i < n && used < max
        invariant
            chars@ == line@,
            n == chars@.len(),
            i <= n,
            col <= 8 * i,
            used <= 8 * i,
            max <= usize::MAX,
            whole == opening(line@, 0, Seq::empty(), start as nat),
            !emitting ==> {
                &&& out@ =~= Seq::<char>::empty()
                &&& used == 0
                &&& col <= start
                &&& whole == opening(line@.skip(i as int), col as nat, style@, start as nat)
            },
            emitting ==> {
                &&& max > 0
                &&& whole matches Some(o)
                &&& replayed == (o.style.len() > 0)
                &&& body == opened(o, max as nat)
                &&& last == style_after(
                    shown(o.rest, o.col, least(o.pad, max as nat), max as nat),
                    o.style,
                )
                &&& last == style_after(
                    shown(line@.skip(i as int), col as nat, used as nat, max as nat),
                    style@,
                )
                &&& out@ + shown(line@.skip(i as int), col as nat, used as nat, max as nat) =~= body
            },
        decreases n - i,
    {
        let ghost s = line@.skip(i as int);
        proof {
            lemma_escape_len(s);
            lemma_shown_style(s, col as nat, used as nat, max as nat, style@);
        }
        let esc: usize = escape_seq_len(&chars, i);
        if esc > 0 {
            let seq = string_of(&chars, i, i + esc);
            assert(seq@ =~= s.take(esc as int));
            assert(s.skip(esc as int) =~= line@.skip(i + esc));
            if emitting {
                out.push_str(&seq);
            }
            if is_sgr_sequence(&seq) {
                if is_sgr_reset(&seq) {
                    style = String::new();
                } else {
                    style.push_str(&seq);
                }
            }
            i = i + esc;
        } else {
            let c: char = chars[i];
            assert(c == s[0]);
            assert(s.skip(1) =~= line@.skip(i + 1));
            let w: u128 = cell_columns(c, col, false);
            if !emitting && col + w > start {
                emitting = true;
                replayed = !style.as_str().is_empty();
                out.push_str(&style);
                if col < start {
                    let left: u128 = col + w - start;
                    let pad: u128 = if left < max {
                        left
                    } else {
                        max
                    };
                    push_spaces(&mut out, pad);
                    used = pad;
                    col = col + w;
                    i = i + 1;
                    proof {
                        let o = whole->0;
                        body = opened(o, max as nat);
                        last = style_after(
                            shown(o.rest, o.col, least(o.pad, max as nat), max as nat),
                            o.style,
                        );
                    }
                } else {
                    proof {
                        let o = whole->0;
                        body = opened(o, max as nat);
                        last = style_after(
                            shown(o.rest, o.col, least(o.pad, max as nat), max as nat),
                            o.style,
                        );
                        assert(out@ + shown(s, col as nat, used as nat, max as nat) =~= body);
                    }
                    if used + w > max {
                        out.push(' ');
                        assert(spaces(1) =~= seq![' ']);
                        i = n;
                        assert(line@.skip(n as int).len() == 0);
                    } else {
                        push_cell(&mut out, c, w);
                        used = used + w;
                        col = col + w;
                        i = i + 1;
                    }
                }
            } else if emitting {
                if used + w > max {
                    out.push(' ');
                    assert(spaces(1) =~= seq![' ']);
                    i = n;
                    assert(line@.skip(n as int).len() == 0);
                } else {
                    push_cell(&mut out, c, w);
                    used = used + w;
                    col = col + w;
                    i = i + 1;
                }
            } else {
                col = col + w;
                i = i + 1;
                if col >= start {
                    emitting = true;
                    replayed = !style.as_str().is_empty();
                    out.push_str(&style);
                    proof {
                        let o = whole->0;
                        body = opened(o, max as nat);
                        last = style_after(
                            shown(o.rest, o.col, least(o.pad, max as nat), max as nat),
                            o.style,
                        );
                    }
                }
            }
        }
    }
    proof {
        let rest = line@.skip(i as int);
        assert(i == n ==> rest.len() == 0);
        if emitting {
            assert(shown(rest, col as nat, used as nat, max as nat) =~= Seq::<char>::empty());
            assert(out@ =~= body);
        } else if max > 0 {
            assert(opening(rest, col as nat, style@, start as nat) is None);
        }
    }
    if emitting && (replayed || !style.as_str().is_empty()) {
        out.push_str("\x1b[m");
    }
    out
}

/// In raw mode, treat escape sequences as visible characters.
fn truncate_raw(line: &str, start_col: usize, max_width: usize) -> (r: String)
    ensures
        r@ == raw_window(line@, 0, start_col as nat, max_width as nat),
{
    let chars = chars_of(line);
    let n: usize = chars.len();
    let start: u128 = start_col as u128;
    let max: u128 = max_width as u128;
    let mut out = String::new();
    let mut col: u128 = 0;
    let mut i: usize = 0;
    assert(line@.skip(0) =~= line@);
    let mut used: u128 = 0;
    while i < n
        invariant
            chars@ == line@,
            n == chars@.len(),
            i <= n,
            col <= 8 * i,
            used <= max,
            max <= usize::MAX,
            start <= usize::MAX,
            ({
                let all = raw_window(line@, 0, start as nat, max as nat);
                let s = line@.skip(i as int);
                if col < start {
                    &&& used == 0
                    &&& out@ =~= Seq::<char>::empty()
                    &&& all == raw_window(s, col as nat, start as nat, max as nat)
                } else {
                    all =~= out@ + raw_shown(s, col as nat, used as nat, max as nat)
                }
            }),
        decreases n - i,
    {
        let ghost s = line@.skip(i as int);
        let c: char = chars[i];
        assert(c == s[0]);
        assert(s.skip(1) =~= line@.skip(i + 1));
        let w: u128 = cell_columns(c, col, true);
        if col < start {
            if col + w > start {
                let left: u128 = col + w - start;
                let pad: u128 = if left < max {
                    left
                } else {
                    max
                };
                push_spaces(&mut out, pad);
                used = pad;
            }
            col = col + w;
            i = i + 1;
            if col == start {
                assert(out@ + raw_shown(line@.skip(i as int), col as nat, 0, max as nat)
                    =~= raw_window(line@.skip(i as int), col as nat, start as nat, max as nat));
            }
        } else if used + w > max {
            i = n;
            assert(line@.skip(n as int).len() == 0);
        } else {
            push_cell(&mut out, c, w);
            used = used + w;
            col = col + w;
            i = i + 1;
        }
    }
    out
}

/// Whether `e` is an escape sequence that ends by itself, whatever follows it.
pub open spec fn is_complete(e: Seq<char>) -> bool {
    &&& e.len() >= 2
    &&& escape_len(e) == e.len()
    &&& if e[1] == '[' {
        e.len() > 2 && '@' <= e.last() <= '~'
    } else if e[1] == ']' {
        e.len() > 2 && (e.last() == BEL || (e.len() > 3 && e[e.len() - 2] == ESC && e.last()
            == '\\'))
    } else if ' ' <= e[1] <= '/' {
        e.len() == 3
    } else {
        true
    }
}

/// Whether all escape sequences of a text end by themselves: none is cut short by
/// the end of the text.
pub open spec fn all_complete(s: Seq<char>) -> bool
    decreases s.len(),
{
    if s.len() == 0 {
        true
    } else if escape_len(s) > 0 {
        proof {
            lemma_escape_len(s);
        }
        is_complete(s.take(escape_len(s))) && all_complete(s.skip(escape_len(s)))
    } else {
        all_complete(s.skip(1))
    }
}

/// Whether a text can stand before any other without showing.
pub open spec fn is_invisible(e: Seq<char>) -> bool {
    forall|t: Seq<char>| #[trigger] visible_text(e + t) == visible_text(t)
}

proof fn lemma_csi_end_before(e: Seq<char>, t: Seq<char>, i: int)
    requires
        2 <= i < e.len(),
        csi_end(e, i) == e.len(),
        '@' <= e.last() <= '~',
    ensures
        csi_end(e + t, i) == e.len(),
    decreases e.len() - i,
{
    assert((e + t)[i] == e[i]);
    if !('@' <= e[i] <= '~') {
        lemma_csi_end_before(e, t, i + 1);
    }
}

proof fn lemma_osc_end_before(e: Seq<char>, t: Seq<char>, i: int)
    requires
        2 <= i < e.len(),
        osc_end(e, i) == e.len(),
        e.last() == BEL || (i + 1 < e.len() && e[e.len() - 2] == ESC && e.last() == '\\'),
    ensures
        osc_end(e + t, i) == e.len(),
    decreases e.len() - i,
{
    assert((e + t)[i] == e[i]);
    if i + 1 < e.len() {
        assert((e + t)[i + 1] == e[i + 1]);
    }
    if e[i] != BEL && !(e[i] == ESC && i + 1 < e.len() && e[i + 1] == '\\') {
        lemma_osc_end(e, i + 1);
        if i + 1 < e.len() {
            lemma_osc_end_before(e, t, i + 1);
        }
    }
}

/// A complete escape sequence does not show.
pub proof fn lemma_complete_invisible(e: Seq<char>)
    requires
        is_complete(e),
    ensures
        is_invisible(e),
{
    assert forall|t: Seq<char>| #[trigger] visible_text(e + t) == visible_text(t) by {
        lemma_complete_len(e, t);
    }
}

proof fn lemma_invisible_concat(a: Seq<char>, b: Seq<char>)
    requires
        is_invisible(a),
        is_invisible(b),
    ensures
        is_invisible(a + b),
{
    assert forall|t: Seq<char>| #[trigger] visible_text((a + b) + t) == visible_text(t) by {
        assert((a + b) + t =~= a + (b + t));
        assert(visible_text(a + (b + t)) == visible_text(b + t));
    }
}

proof fn lemma_empty_invisible()
    ensures
        is_invisible(Seq::empty()),
{
    assert forall|t: Seq<char>| #[trigger] visible_text(Seq::<char>::empty() + t) == visible_text(
        t,
    ) by {
        assert(Seq::<char>::empty() + t =~= t);
    }
}

/// Text without an ESC shows as it is before any other.
pub proof fn lemma_plain_prefix(a: Seq<char>, t: Seq<char>)
    requires
        !a.contains(ESC),
    ensures
        visible_text(a + t) == a + visible_text(t),
    decreases a.len(),
{
    if a.len() == 0 {
        assert(a + t =~= t);
        assert(a + visible_text(t) =~= visible_text(t));
    } else {
        assert(a.contains(a[0]));
        let b = a.skip(1);
        assert forall|c: char| b.contains(c) implies a.contains(c) by {
            let i = choose|i: int| 0 <= i < b.len() && b[i] == c;
            assert(a[i + 1] == c);
        }
        lemma_plain_prefix(b, t);
        lemma_escape_len(a + t);
        assert((a + t).skip(1) =~= b + t);
        assert((a + t)[0] == a[0]);
        assert(seq![a[0]] + (b + visible_text(t)) =~= a + visible_text(t));
    }
}

/// A control sequence ends in the same place without what follows it.
proof fn lemma_csi_end_alone(s: Seq<char>, i: int)
    requires
        2 <= i <= s.len(),
    ensures
        csi_end(s.take(csi_end(s, i)), i) == csi_end(s, i),
        csi_end(s, i) < s.len() ==> csi_end(s, i) > i && '@' <= s[csi_end(s, i) - 1] <= '~',
    decreases s.len() - i,
{
    lemma_csi_end(s, i);
    let e = csi_end(s, i);
    if i < s.len() {
        lemma_csi_end(s, i + 1);
        assert(s.take(e)[i] == s[i]);
        if !('@' <= s[i] <= '~') {
            lemma_csi_end_alone(s, i + 1);
        }
    }
}

/// An operating system command ends in the same place without what follows it.
proof fn lemma_osc_end_alone(s: Seq<char>, i: int)
    requires
        2 <= i <= s.len(),
    ensures
        ({
            let e = osc_end(s, i);
            &&& osc_end(s.take(e), i) == e
            &&& e < s.len() ==> {
                &&& e > i
                &&& s[e - 1] == BEL || (e > i + 1 && s[e - 2] == ESC && s[e - 1] == '\\')
            }
        }),
    decreases s.len() - i,
{
    lemma_osc_end(s, i);
    let e = osc_end(s, i);
    if i < s.len() {
        lemma_osc_end(s, i + 1);
        assert(s.take(e)[i] == s[i]);
        if i + 1 < e {
            assert(s.take(e)[i + 1] == s[i + 1]);
        }
        if s[i] != BEL && !(s[i] == ESC && i + 1 < s.len() && s[i + 1] == '\\') {
            lemma_osc_end_alone(s, i + 1);
        }
    }
}

/// An escape sequence is complete if anything follows it, or if it sets a style.
proof fn lemma_escape_complete(s: Seq<char>)
    requires
        escape_len(s) > 0,
        escape_len(s) < s.len() || is_sgr(s.take(escape_len(s))),
    ensures
        is_complete(s.take(escape_len(s))),
{
    lemma_escape_len(s);
    let n = escape_len(s);
    let e = s.take(n);
    assert(e.len() == n);
    assert(e[0] == s[0]);
    if s.len() >= 2 {
        lemma_csi_end(s, 2);
        lemma_osc_end(s, 2);
    }
    assert(e[1] == s[1]);
    assert(e.last() == s[n - 1]);
    if s[1] == '[' {
        lemma_csi_end_alone(s, 2);
    } else if s[1] == ']' {
        lemma_osc_end_alone(s, 2);
        if n > 3 {
            assert(e[n - 2] == s[n - 2]);
        }
    }
}

/// The style at the start of the screen does not show.
proof fn lemma_opening_style(s: Seq<char>, col: nat, style: Seq<char>, start: nat)
    requires
        is_invisible(style),
    ensures
        opening(s, col, style, start) matches Some(o) ==> is_invisible(o.style),
    decreases s.len(),
{
    if s.len() > 0 {
        lemma_escape_len(s);
        let e = escape_len(s);
        if e > 0 {
            let seq = s.take(e);
            lemma_empty_invisible();
            if is_sgr(seq) {
                lemma_escape_complete(s);
                lemma_complete_invisible(seq);
                lemma_invisible_concat(style, seq);
            }
            lemma_opening_style(s.skip(e), col, restyle(style, seq), start);
        } else {
            let w = cell_width(s[0], col, false);
            if col + w < start {
                lemma_opening_style(s.skip(1), col + w, style, start);
            }
        }
    }
}

/// Plain text before others makes no difference to whether these are complete.
proof fn lemma_all_complete_after_plain(a: Seq<char>, t: Seq<char>)
    requires
        !a.contains(ESC),
    ensures
        all_complete(a + t) == all_complete(t),
    decreases a.len(),
{
    if a.len() == 0 {
        assert(a + t =~= t);
    } else {
        assert(a.contains(a[0]));
        let b = a.skip(1);
        assert forall|c: char| b.contains(c) implies a.contains(c) by {
            let i = choose|i: int| 0 <= i < b.len() && b[i] == c;
            assert(a[i + 1] == c);
        }
        lemma_all_complete_after_plain(b, t);
        lemma_escape_len(a + t);
        assert((a + t).skip(1) =~= b + t);
        assert((a + t)[0] == a[0]);
    }
}

/// A complete escape sequence is one whatever follows it.
proof fn lemma_complete_len(e: Seq<char>, t: Seq<char>)
    requires
        is_complete(e),
    ensures
        escape_len(e + t) == e.len(),
        (e + t).take(e.len() as int) == e,
        (e + t).skip(e.len() as int) == t,
{
    let s = e + t;
    assert(s[0] == e[0]);
    assert(s[1] == e[1]);
    if e[1] == '[' {
        lemma_csi_end_before(e, t, 2);
    } else if e[1] == ']' {
        lemma_osc_end_before(e, t, 2);
    }
    assert(s.take(e.len() as int) =~= e);
    assert(s.skip(e.len() as int) =~= t);
}

/// What shows of a text before `tail` takes no more columns than are left.
proof fn lemma_shown_fits(s: Seq<char>, col: nat, used: nat, max: nat, tail: Seq<char>) -> (seen:
    Seq<char>)
    requires
        used <= max,
        tail.len() > 0 ==> all_complete(shown(s, col, used, max)),
    ensures
        visible_text(shown(s, col, used, max) + tail) == seen + visible_text(tail),
        used + width::display_columns(seen) <= max,
    decreases s.len(),
{
    let all = shown(s, col, used, max);
    let none = Seq::<char>::empty();
    if s.len() == 0 || used >= max {
        assert(all + tail =~= tail);
        assert(none + visible_text(tail) =~= visible_text(tail));
        none
    } else {
        lemma_escape_len(s);
        let e = escape_len(s);
        if e > 0 {
            let seq = s.take(e);
            let rest = shown(s.skip(e), col, used, max);
            if e < s.len() {
                lemma_escape_complete(s);
                lemma_complete_len(seq, rest);
                let seen = lemma_shown_fits(s.skip(e), col, used, max, tail);
                lemma_complete_invisible(seq);
                assert(all + tail =~= seq + (rest + tail));
                seen
            } else {
                assert(seq =~= s);
                assert(rest =~= none);
                assert(all =~= s);
                assert(none + visible_text(tail) =~= visible_text(tail));
                if tail.len() > 0 {
                    lemma_complete_invisible(s);
                } else {
                    assert(all + tail =~= s);
                    assert(s.skip(e) =~= none);
                    assert(tail =~= none);
                }
                none
            }
        } else {
            let w = cell_width(s[0], col, false);
            if used + w > max {
                let blank = spaces(1);
                lemma_spaces(1);
                lemma_plain_prefix(blank, tail);
                blank
            } else {
                let rest = shown(s.skip(1), col + w, used + w, max);
                let c = cell(s[0], w);
                lemma_cell(s[0], w, col);
                lemma_all_complete_after_plain(c, rest);
                let seen = lemma_shown_fits(s.skip(1), col + w, used + w, max, tail);
                lemma_plain_prefix(c, rest + tail);
                assert(all + tail =~= c + (rest + tail));
                assert(c + (seen + visible_text(tail)) =~= (c + seen) + visible_text(tail));
                width::lemma_display_columns_concat(c, seen);
                c + seen
            }
        }
    }
}

/// Plain text leaves the style as it is.
proof fn lemma_style_after_plain(a: Seq<char>, t: Seq<char>, style: Seq<char>)
    requires
        !a.contains(ESC),
    ensures
        style_after(a + t, style) == style_after(t, style),
    decreases a.len(),
{
    if a.len() == 0 {
        assert(a + t =~= t);
    } else {
        assert(a.contains(a[0]));
        let b = a.skip(1);
        assert forall|c: char| b.contains(c) implies a.contains(c) by {
            let i = choose|i: int| 0 <= i < b.len() && b[i] == c;
            assert(a[i + 1] == c);
        }
        lemma_style_after_plain(b, t, style);
        lemma_escape_len(a + t);
        assert((a + t).skip(1) =~= b + t);
        assert((a + t)[0] == a[0]);
    }
}

/// How the style changes with the first escape sequence or character that shows.
proof fn lemma_shown_style(s: Seq<char>, col: nat, used: nat, max: nat, style: Seq<char>)
    requires
        s.len() > 0,
        used < max,
    ensures
        ({
            let e = escape_len(s);
            let w = cell_width(s[0], col, false);
            let after = style_after(shown(s, col, used, max), style);
            if e > 0 {
                after == style_after(
                    shown(s.skip(e), col, used, max),
                    restyle(style, s.take(e)),
                )
            } else if used + w > max {
                after == style
            } else {
                after == style_after(shown(s.skip(1), col + w, used + w, max), style)
            }
        }),
{
    lemma_escape_len(s);
    let e = escape_len(s);
    let none = Seq::<char>::empty();
    if e > 0 {
        let seq = s.take(e);
        let rest = shown(s.skip(e), col, used, max);
        if e < s.len() {
            lemma_escape_complete(s);
            lemma_complete_len(seq, rest);
        } else {
            assert(seq =~= s);
            assert(rest =~= none);
            assert(seq + rest =~= s);
            assert(s.skip(e) =~= none);
        }
    } else {
        let w = cell_width(s[0], col, false);
        if used + w > max {
            lemma_spaces(1);
            lemma_style_after_plain(spaces(1), none, style);
            assert(spaces(1) + none =~= spaces(1));
        } else {
            lemma_cell(s[0], w, col);
            lemma_style_after_plain(
                cell(s[0], w),
                shown(s.skip(1), col + w, used + w, max),
                style,
            );
        }
    }
}

/// Spaces take a column each, and are not ESC.
proof fn lemma_spaces(n: nat)
    ensures
        !spaces(n).contains(ESC),
        width::display_columns(spaces(n)) == n,
    decreases n,
{
    if n > 0 {
        lemma_spaces((n - 1) as nat);
        assert(spaces(n).drop_last() =~= spaces((n - 1) as nat));
    }
}

/// What is shown for a character takes the columns that it is counted with.
proof fn lemma_cell(c: char, w: nat, col: nat)
    requires
        c != ESC,
        w == cell_width(c, col, false),
    ensures
        !cell(c, w).contains(ESC),
        width::display_columns(cell(c, w)) == w,
{
    if c == '\t' {
        lemma_spaces(w);
    } else {
        let one = seq![c];
        assert(one.drop_last() =~= Seq::<char>::empty());
        assert(width::display_columns(Seq::<char>::empty()) == 0);
        assert(one.last() == c);
    }
}

/// What shows of a line that is cut to `max` columns takes no more than these. (Left
/// out is a part that ends within an escape sequence, which would go on into the
/// sequence that resets the style.)
pub proof fn law_window_fits(line: Seq<char>, start: nat, max: nat)
    requires
        opening(line, 0, Seq::empty(), start) matches Some(o) ==> is_styled(o, max)
            ==> all_complete(shown(o.rest, o.col, least(o.pad, max), max)),
    ensures
        width::display_columns(visible_text(window(line, start, max, false))) <= max,
{
    if max > 0 {
        lemma_empty_invisible();
        lemma_opening_style(line, 0, Seq::empty(), start);
        if let Some(o) = opening(line, 0, Seq::empty(), start) {
            let tail = if is_styled(o, max) {
                sgr_reset()
            } else {
                Seq::empty()
            };
            let n = least(o.pad, max);
            let pad = spaces(n);
            let body = shown(o.rest, o.col, n, max);
            let seen = lemma_shown_fits(o.rest, o.col, n, max, tail);
            let w = window(line, start, max, false);
            assert(w =~= o.style + (pad + (body + tail)));
            lemma_spaces(n);
            lemma_plain_prefix(pad, body + tail);
            reveal_strlit("\x1b[m");
            assert(escape_len(sgr_reset()) == 3);
            assert(visible_text(sgr_reset().skip(3)) =~= Seq::<char>::empty()) by {
                assert(sgr_reset().skip(3) =~= Seq::<char>::empty());
            }
            assert(visible_text(tail) =~= Seq::<char>::empty());
            assert(visible_text(w) =~= pad + seen);
            width::lemma_display_columns_concat(pad, seen);
        }
    }
}

/// Texts whose escape sequences are complete are so one after the other, and the
/// second begins with the style that the first ends with.
proof fn lemma_complete_concat(a: Seq<char>, b: Seq<char>, style: Seq<char>)
    requires
        all_complete(a),
    ensures
        all_complete(a + b) == all_complete(b),
        style_after(a + b, style) == style_after(b, style_after(a, style)),
    decreases a.len(),
{
    if a.len() == 0 {
        assert(a + b =~= b);
    } else {
        lemma_escape_len(a);
        let e = escape_len(a);
        if e > 0 {
            let seq = a.take(e);
            lemma_complete_concat(a.skip(e), b, restyle(style, seq));
            lemma_complete_len(seq, a.skip(e) + b);
            assert(a + b =~= seq + (a.skip(e) + b));
        } else {
            lemma_complete_concat(a.skip(1), b, style);
            lemma_escape_len(a + b);
            assert((a + b)[0] == a[0]);
            assert((a + b).skip(1) =~= a.skip(1) + b);
        }
    }
}

/// The style at the start of the screen is made of complete escape sequences.
proof fn lemma_opening_complete(s: Seq<char>, col: nat, style: Seq<char>, start: nat)
    requires
        all_complete(style),
    ensures
        opening(s, col, style, start) matches Some(o) ==> all_complete(o.style),
    decreases s.len(),
{
    if s.len() > 0 {
        lemma_escape_len(s);
        let e = escape_len(s);
        if e > 0 {
            let seq = s.take(e);
            if is_sgr(seq) {
                let none = Seq::<char>::empty();
                lemma_escape_complete(s);
                lemma_complete_len(seq, none);
                assert(seq + none =~= seq);
                assert(all_complete(none));
                lemma_complete_concat(style, seq, none);
            }
            lemma_opening_complete(s.skip(e), col, restyle(style, seq), start);
        } else {
            let w = cell_width(s[0], col, false);
            if col + w < start {
                lemma_opening_complete(s.skip(1), col + w, style, start);
            }
        }
    }
}

/// No style is left in force after what shows of a line. (Left out is a part that
/// ends within an escape sequence, which would go on into the sequence that resets
/// the style.)
pub proof fn law_window_resets(line: Seq<char>, start: nat, max: nat)
    requires
        opening(line, 0, Seq::empty(), start) matches Some(o) ==> is_styled(o, max)
            ==> all_complete(shown(o.rest, o.col, least(o.pad, max), max)),
    ensures
        style_after(window(line, start, max, false), Seq::empty()) == Seq::<char>::empty(),
{
    let none = Seq::<char>::empty();
    if max > 0 {
        lemma_opening_complete(line, 0, none, start);
        if let Some(o) = opening(line, 0, none, start) {
            let n = least(o.pad, max);
            let pad = spaces(n);
            let text = shown(o.rest, o.col, n, max);
            let w = window(line, start, max, false);
            lemma_spaces(n);
            if is_styled(o, max) {
                let body = o.style + (pad + text);
                lemma_all_complete_after_plain(pad, text);
                lemma_complete_concat(o.style, pad + text, none);
                lemma_complete_concat(body, sgr_reset(), none);
                assert(w =~= body + sgr_reset());
                reveal_strlit("\x1b[m");
                assert(escape_len(sgr_reset()) == 3);
                assert(sgr_reset().take(3) =~= sgr_reset());
                assert(sgr_reset().skip(3) =~= none);
                assert(style_after(none, none) == none);
            } else {
                assert(o.style =~= none);
                lemma_style_after_plain(pad, text, none);
                assert(w =~= pad + text);
                assert(style_after(text, none) =~= none);
            }
        }
    }
}

/// Columns of a text that is shown literally.
pub open spec fn raw_display_columns(s: Seq<char>) -> nat
    decreases s.len(),
{
    if s.len() == 0 {
        0
    } else {
        width::raw_columns(s[0]) + raw_display_columns(s.skip(1))
    }
}

proof fn lemma_raw_concat(a: Seq<char>, b: Seq<char>)
    ensures
        raw_display_columns(a + b) == raw_display_columns(a) + raw_display_columns(b),
    decreases a.len(),
{
    if a.len() == 0 {
        assert(a + b =~= b);
    } else {
        lemma_raw_concat(a.skip(1), b);
        assert((a + b).skip(1) =~= a.skip(1) + b);
    }
}

proof fn lemma_raw_spaces(n: nat)
    ensures
        raw_display_columns(spaces(n)) == n,
    decreases n,
{
    if n > 0 {
        lemma_raw_spaces((n - 1) as nat);
        assert(spaces(n).skip(1) =~= spaces((n - 1) as nat));
    }
}

proof fn lemma_raw_shown_fits(s: Seq<char>, col: nat, used: nat, max: nat)
    requires
        used <= max,
    ensures
        used + raw_display_columns(raw_shown(s, col, used, max)) <= max,
    decreases s.len(),
{
    if s.len() > 0 {
        let w = cell_width(s[0], col, true);
        if used + w <= max {
            lemma_raw_shown_fits(s.skip(1), col + w, used + w, max);
            let c = cell(s[0], w);
            lemma_raw_concat(c, raw_shown(s.skip(1), col + w, used + w, max));
            lemma_raw_spaces(w);
            assert(seq![s[0]].skip(1) =~= Seq::<char>::empty());
            assert(raw_display_columns(Seq::<char>::empty()) == 0);
        }
    }
}

proof fn lemma_raw_window_fits(line: Seq<char>, col: nat, start: nat, max: nat)
    ensures
        raw_display_columns(raw_window(line, col, start, max)) <= max,
    decreases line.len(),
{
    if line.len() > 0 {
        if col >= start {
            lemma_raw_shown_fits(line, col, 0, max);
        } else {
            let w = cell_width(line[0], col, true);
            if col + w > start {
                let left = (col + w - start) as nat;
                let pad = if left < max {
                    left
                } else {
                    max
                };
                lemma_raw_shown_fits(line.skip(1), col + w, pad, max);
                lemma_raw_spaces(pad);
                lemma_raw_concat(spaces(pad), raw_shown(line.skip(1), col + w, pad, max));
            } else {
                lemma_raw_window_fits(line.skip(1), col + w, start, max);
            }
        }
    }
}

/// A line that is shown literally and cut to `max` columns takes no more than these.
pub proof fn law_raw_window_fits(line: Seq<char>, start: nat, max: nat)
    ensures
        raw_display_columns(window(line, start, max, true)) <= max,
{
    lemma_raw_window_fits(line, 0, start, max);
}

/// Stripping a line strips its parts, if no escape sequence of the first goes on into
/// the second.
pub proof fn law_strip_concat(a: Seq<char>, b: Seq<char>)
    requires
        all_complete(a),
    ensures
        visible_text(a + b) == visible_text(a) + visible_text(b),
    decreases a.len(),
{
    let s = a + b;
    if a.len() == 0 {
        assert(s =~= b);
        assert(visible_text(a) + visible_text(b) =~= visible_text(b));
    } else {
        lemma_escape_len(a);
        lemma_escape_len(s);
        let n = escape_len(a);
        assert(s[0] == a[0]);
        if n > 0 {
            let e = a.take(n);
            let rest = a.skip(n);
            assert(s =~= e + (rest + b));
            lemma_complete_invisible(e);
            law_strip_concat(rest, b);
        } else {
            let rest = a.skip(1);
            assert(s.skip(1) =~= rest + b);
            law_strip_concat(rest, b);
            assert(seq![a[0]] + (visible_text(rest) + visible_text(b)) =~= visible_text(a)
                + visible_text(b));
        }
    }
}

/// Stripping a line does not change its width.
pub proof fn law_strip_keeps_width(s: Seq<char>)
    ensures
        width::display_columns(visible_text(visible_text(s))) == width::display_columns(
            visible_text(s),
        ),
{
    law_strip_twice(s);
}

/// The widths of the parts of a line add up, if no escape sequence of the first goes
/// on into the second.
pub proof fn law_width_concat(a: Seq<char>, b: Seq<char>)
    requires
        all_complete(a),
    ensures
        width::display_columns(visible_text(a + b)) == width::display_columns(visible_text(a))
            + width::display_columns(visible_text(b)),
{
    law_strip_concat(a, b);
    width::lemma_display_columns_concat(visible_text(a), visible_text(b));
}

/// What shows in a column: a character or a part of it.
#[verifier::ext_equal]
pub struct Cell {
    pub c: char,
    /// The columns of the character that come before this one.
    pub at: int,
    /// The columns of the character.
    pub w: int,
    /// The style sequences in force.
    pub style: Seq<char>,
}

/// Columns that a character takes that begins in column `col`: a tab goes on to the
/// next multiple of 8. Shown literally, a control character takes one.
pub open spec fn takes(c: char, col: int, raw: bool) -> int {
    if c == '\t' {
        8 - col % 8
    } else if raw && width::is_control(c) {
        1
    } else {
        width::columns(c) as int
    }
}

/// What shows in column `x` of a text that begins in column `col` under `style`; `None`
/// if the text does not reach there. Escape sequences take no columns.
pub open spec fn cell_at(s: Seq<char>, col: int, style: Seq<char>, x: int) -> Option<Cell>
    decreases s.len(),
{
    if s.len() == 0 {
        None
    } else if escape_len(s) > 0 {
        proof {
            lemma_escape_len(s);
        }
        let e = escape_len(s);
        cell_at(s.skip(e), col, restyle(style, s.take(e)), x)
    } else {
        let w = takes(s[0], col, false);
        if col <= x < col + w {
            Some(Cell { c: s[0], at: x - col, w, style })
        } else {
            cell_at(s.skip(1), col + w, style, x)
        }
    }
}

/// Whether nothing but a space shows.
pub open spec fn is_blank(b: Option<Cell>) -> bool {
    b matches Some(k) ==> k.c == ' ' && k.w == 1
}

/// Whether a column that shows `a` in a line may show `b` as column `x` of a screen of
/// `max` columns: the same, but tabs, and characters that are not wholly on the screen,
/// are blank.
pub open spec fn shows_as(a: Option<Cell>, b: Option<Cell>, x: int, max: int) -> bool {
    match a {
        None => b is None,
        Some(k) => if k.c == '\t' || x < k.at || x - k.at + k.w > max {
            is_blank(b)
        } else {
            b == a
        },
    }
}

/// Spaces take a column each.
proof fn lemma_cell_spaces(n: nat, t: Seq<char>, col: int, style: Seq<char>, x: int)
    requires
        0 <= col <= x,
    ensures
        cell_at(spaces(n) + t, col, style, x) == if x < col + n {
            Some(Cell { c: ' ', at: 0, w: 1, style })
        } else {
            cell_at(t, col + n, style, x)
        },
    decreases n,
{
    let s = spaces(n) + t;
    if n == 0 {
        assert(s =~= t);
    } else {
        lemma_escape_len(s);
        assert(s[0] == ' ');
        assert(s.skip(1) =~= spaces((n - 1) as nat) + t);
        if x > col {
            lemma_cell_spaces((n - 1) as nat, t, col + 1, style, x);
        }
    }
}

/// What is shown of a text shows in each column what the text does.
#[verifier::rlimit(50)]
#[verifier::spinoff_prover]
proof fn lemma_cell_shown(
    s: Seq<char>,
    col: nat,
    used: nat,
    max: nat,
    style: Seq<char>,
    tail: Seq<char>,
    x: int,
)
    requires
        used <= x < max,
        tail.len() == 0 || tail == sgr_reset(),
        tail.len() > 0 ==> all_complete(shown(s, col, used, max)),
    ensures
        shows_as(
            cell_at(s, col as int, style, col + (x - used)),
            cell_at(shown(s, col, used, max) + tail, used as int, style, x),
            x,
            max as int,
        ),
    decreases s.len(),
{
    let all = shown(s, col, used, max);
    let y = col + (x - used);
    if s.len() == 0 {
        assert(all + tail =~= tail);
        lemma_cell_tail(tail, used as int, style, x);
    } else {
        lemma_escape_len(s);
        let e = escape_len(s);
        if e > 0 {
            let seq = s.take(e);
            let rest = shown(s.skip(e), col, used, max);
            let after = restyle(style, seq);
            if e < s.len() {
                lemma_escape_complete(s);
                lemma_complete_len(seq, rest);
                lemma_cell_shown(s.skip(e), col, used, max, after, tail, x);
                lemma_complete_len(seq, rest + tail);
                assert(all + tail =~= seq + (rest + tail));
            } else {
                assert(seq =~= s);
                assert(s.skip(e) =~= Seq::<char>::empty());
                assert(rest =~= Seq::<char>::empty());
                assert(all =~= s);
                assert(cell_at(Seq::<char>::empty(), col as int, after, y) is None);
                assert(cell_at(s, col as int, style, y) is None);
                if tail.len() > 0 {
                    lemma_complete_len(s, tail);
                    lemma_cell_tail(tail, used as int, after, x);
                } else {
                    assert(all + tail =~= s);
                    assert(cell_at(Seq::<char>::empty(), used as int, after, x) is None);
                    assert(cell_at(s, used as int, style, x) is None);
                }
            }
        } else {
            let c = s[0];
            let w = cell_width(c, col, false);
            assert(takes(c, col as int, false) == w);
            if used + w > max {
                lemma_cell_spaces(1, tail, used as int, style, x);
                if x > used {
                    lemma_cell_tail(tail, used as int + 1, style, x);
                }
            } else {
                let rest = shown(s.skip(1), col + w, used + w, max);
                assert(all + tail =~= cell(c, w) + (rest + tail));
                if c == '\t' {
                    lemma_cell_spaces(w, rest + tail, used as int, style, x);
                } else {
                    let out = seq![c] + (rest + tail);
                    lemma_escape_len(out);
                    assert(out.skip(1) =~= rest + tail);
                }
                lemma_cell(c, w, col);
                lemma_all_complete_after_plain(cell(c, w), rest);
                if x >= used + w {
                    lemma_cell_shown(s.skip(1), col + w, used + w, max, style, tail, x);
                }
            }
        }
    }
}

/// The sequence that resets the style shows nothing.
proof fn lemma_cell_tail(tail: Seq<char>, col: int, style: Seq<char>, x: int)
    requires
        tail.len() == 0 || tail == sgr_reset(),
    ensures
        cell_at(tail, col, style, x) is None,
{
    if tail.len() > 0 {
        reveal_strlit("\x1b[m");
        assert(escape_len(tail) == 3);
        let none = Seq::<char>::empty();
        assert(tail.skip(3) =~= none);
        assert(cell_at(none, col, restyle(style, tail.take(3)), x) is None);
    }
}

/// Whether a text only sets the style to itself.
#[verifier::opaque]
pub open spec fn is_replay(style: Seq<char>) -> bool {
    forall|t: Seq<char>, col: int, x: int| #[trigger]
        cell_at(style + t, col, Seq::empty(), x) == cell_at(t, col, style, x)
}

proof fn lemma_replay_nothing()
    ensures
        is_replay(Seq::empty()),
{
    reveal(is_replay);
    let none = Seq::<char>::empty();
    assert forall|t: Seq<char>, col: int, x: int| #[trigger]
        cell_at(none + t, col, none, x) == cell_at(t, col, none, x) by {
        assert(none + t =~= t);
    }
}

proof fn lemma_replay(style: Seq<char>, t: Seq<char>, col: int, x: int)
    requires
        is_replay(style),
    ensures
        cell_at(style + t, col, Seq::empty(), x) == cell_at(t, col, style, x),
{
    reveal(is_replay);
}

proof fn lemma_replay_more(style: Seq<char>, seq: Seq<char>)
    requires
        is_replay(style),
        is_complete(seq),
        is_sgr(seq),
        !is_reset(seq),
    ensures
        is_replay(style + seq),
{
    let after = style + seq;
    assert forall|t: Seq<char>, col: int, x: int| #[trigger]
        cell_at(after + t, col, Seq::empty(), x) == cell_at(t, col, after, x) by {
        assert(after + t =~= style + (seq + t));
        lemma_replay(style, seq + t, col, x);
        lemma_complete_len(seq, t);
    }
    reveal(is_replay);
}

/// Where the visible part begins, the line goes on as it did.
#[verifier::rlimit(50)]
#[verifier::spinoff_prover]
proof fn lemma_cell_opening(s: Seq<char>, col: nat, style: Seq<char>, start: nat, x: int)
    requires
        is_replay(style),
        col <= start <= x,
    ensures
        match opening(s, col, style, start) {
            None => cell_at(s, col as int, style, x) is None,
            Some(o) => {
                &&& is_replay(o.style)
                &&& o.col == start + o.pad
                &&& if x < start + o.pad {
                    cell_at(s, col as int, style, x) matches Some(k) && x - k.at < start
                } else {
                    cell_at(s, col as int, style, x) == cell_at(o.rest, o.col as int, o.style, x)
                }
            },
        },
    decreases s.len(),
{
    if s.len() > 0 {
        lemma_escape_len(s);
        let e = escape_len(s);
        if e > 0 {
            let seq = s.take(e);
            let after = restyle(style, seq);
            lemma_replay_nothing();
            if is_sgr(seq) && !is_reset(seq) {
                lemma_escape_complete(s);
                lemma_replay_more(style, seq);
            }
            lemma_cell_opening(s.skip(e), col, after, start, x);
        } else {
            let w = cell_width(s[0], col, false);
            assert(takes(s[0], col as int, false) == w);
            if col + w < start {
                lemma_cell_opening(s.skip(1), col + w, style, start, x);
            }
        }
    }
}

/// A line that is cut shows in each column of the screen what is in that column of the
/// line, counted from column `start` on: the same character in the same style, and
/// nothing where the line has ended. Tabs, and characters that the edges of the screen
/// cut, are blank. (Left out is a part that ends within an escape sequence, which would
/// go on into the sequence that resets the style.)
#[verifier::rlimit(50)]
#[verifier::spinoff_prover]
pub proof fn law_window_columns(line: Seq<char>, start: nat, max: nat, x: int)
    requires
        0 <= x < max,
        opening(line, 0, Seq::empty(), start) matches Some(o) ==> is_styled(o, max)
            ==> all_complete(shown(o.rest, o.col, least(o.pad, max), max)),
    ensures
        shows_as(
            cell_at(line, 0, Seq::empty(), start + x),
            cell_at(window(line, start, max, false), 0, Seq::empty(), x),
            x,
            max as int,
        ),
{
    let none = Seq::<char>::empty();
    lemma_replay_nothing();
    lemma_cell_opening(line, 0, none, start, start + x);
    let w = window(line, start, max, false);
    match opening(line, 0, none, start) {
        None => {
            assert(w =~= none);
        },
        Some(o) => {
            let n = least(o.pad, max);
            let tail = if is_styled(o, max) {
                sgr_reset()
            } else {
                none
            };
            let text = shown(o.rest, o.col, n, max);
            let body = spaces(n) + (text + tail);
            assert(w =~= o.style + body);
            lemma_replay(o.style, body, 0, x);
            lemma_cell_spaces(n, text + tail, 0, o.style, x);
            if x >= n {
                lemma_cell_shown(o.rest, o.col, n, max, o.style, tail, x);
            }
        },
    }
}

/// What shows in column `x` of a text that is shown literally and begins in column
/// `col`.
pub open spec fn raw_cell_at(s: Seq<char>, col: int, x: int) -> Option<Cell>
    decreases s.len(),
{
    if s.len() == 0 {
        None
    } else {
        let w = takes(s[0], col, true);
        if col <= x < col + w {
            Some(Cell { c: s[0], at: x - col, w, style: Seq::empty() })
        } else {
            raw_cell_at(s.skip(1), col + w, x)
        }
    }
}

proof fn lemma_raw_cell_spaces(n: nat, t: Seq<char>, col: int, x: int)
    requires
        0 <= col <= x,
    ensures
        raw_cell_at(spaces(n) + t, col, x) == if x < col + n {
            Some(Cell { c: ' ', at: 0, w: 1, style: Seq::empty() })
        } else {
            raw_cell_at(t, col + n, x)
        },
    decreases n,
{
    let s = spaces(n) + t;
    if n == 0 {
        assert(s =~= t);
    } else {
        assert(s[0] == ' ');
        assert(s.skip(1) =~= spaces((n - 1) as nat) + t);
        if x > col {
            lemma_raw_cell_spaces((n - 1) as nat, t, col + 1, x);
        }
    }
}

proof fn lemma_raw_cell_shown(s: Seq<char>, col: nat, used: nat, max: nat, x: int)
    requires
        used <= x < max,
    ensures
        shows_as(
            raw_cell_at(s, col as int, col + (x - used)),
            raw_cell_at(raw_shown(s, col, used, max), used as int, x),
            x,
            max as int,
        ),
    decreases s.len(),
{
    if s.len() > 0 {
        let c = s[0];
        let w = cell_width(c, col, true);
        assert(takes(c, col as int, true) == w);
        if used + w <= max {
            let rest = raw_shown(s.skip(1), col + w, used + w, max);
            let out = cell(c, w) + rest;
            if c == '\t' {
                lemma_raw_cell_spaces(w, rest, used as int, x);
            } else {
                assert(out[0] == c);
                assert(out.skip(1) =~= rest);
            }
            if x >= used + w {
                lemma_raw_cell_shown(s.skip(1), col + w, used + w, max, x);
            }
        }
    }
}

proof fn lemma_raw_columns(s: Seq<char>, col: nat, start: nat, max: nat, x: int)
    requires
        0 <= x < max,
        col <= start,
    ensures
        shows_as(
            raw_cell_at(s, col as int, start + x),
            raw_cell_at(raw_window(s, col, start, max), 0, x),
            x,
            max as int,
        ),
    decreases s.len(),
{
    if s.len() > 0 {
        if col >= start {
            lemma_raw_cell_shown(s, col, 0, max, x);
        } else {
            let w = cell_width(s[0], col, true);
            assert(takes(s[0], col as int, true) == w);
            if col + w > start {
                let left = (col + w - start) as nat;
                let pad = if left < max {
                    left
                } else {
                    max
                };
                lemma_raw_cell_spaces(pad, raw_shown(s.skip(1), col + w, pad, max), 0, x);
                if x >= pad {
                    lemma_raw_cell_shown(s.skip(1), col + w, pad, max, x);
                }
            } else {
                lemma_raw_columns(s.skip(1), col + w, start, max, x);
            }
        }
    }
}

/// A line that is shown literally and cut shows in each column of the screen what is in
/// that column of the line, counted from column `start` on.
pub proof fn law_raw_window_columns(line: Seq<char>, start: nat, max: nat, x: int)
    requires
        0 <= x < max,
    ensures
        shows_as(
            raw_cell_at(line, 0, start + x),
            raw_cell_at(window(line, start, max, true), 0, x),
            x,
            max as int,
        ),
{
    lemma_raw_columns(line, 0, start, max, x);
}

/// Which sequences change the style: those of colours and attributes are added, one
/// that resets them takes all away, and others leave it as it is.
pub proof fn law_restyle(style: Seq<char>, params: Seq<char>, last: char)
    ensures
        ({
            let seq = seq![ESC, '['] + params + seq![last];
            let after = restyle(style, seq);
            &&& last != 'm' ==> after == style
            &&& last == 'm' && (params.len() == 0 || params == seq!['0']) ==> after.len() == 0
            &&& last == 'm' && params.len() > 0 && params != seq!['0'] ==> after == style + seq
        }),
{
    let seq = seq![ESC, '['] + params + seq![last];
    reveal_strlit("\x1b[m");
    reveal_strlit("\x1b[0m");
    assert(seq.last() == last);
    if params.len() == 0 {
        assert(last == 'm' ==> seq =~= "\x1b[m"@);
    } else if params =~= seq!['0'] {
        assert(last == 'm' ==> seq =~= "\x1b[0m"@);
    } else {
        assert(seq.len() >= 4);
        if seq == "\x1b[0m"@ {
            assert(params[0] == seq[2]);
            assert(params =~= seq!['0']);
        }
    }
}

/// A control sequence goes on to its first final character.
proof fn lemma_csi_scan(s: Seq<char>, i: int, j: int)
    requires
        2 <= i <= j < s.len(),
        forall|k: int| i <= k < j ==> !('@' <= #[trigger] s[k] <= '~'),
        '@' <= s[j] <= '~',
    ensures
        csi_end(s, i) == j + 1,
    decreases j - i,
{
    if i < j {
        lemma_csi_scan(s, i + 1, j);
    }
}

/// An operating system command goes on to its first terminator.
proof fn lemma_osc_scan(s: Seq<char>, i: int, j: int)
    requires
        2 <= i <= j < s.len(),
        forall|k: int| i <= k < j ==> #[trigger] s[k] != BEL && s[k] != ESC,
        s[j] == BEL || (s[j] == ESC && j + 1 < s.len() && s[j + 1] == '\\'),
    ensures
        osc_end(s, i) == if s[j] == BEL {
            j + 1
        } else {
            j + 2
        },
    decreases j - i,
{
    if i < j {
        lemma_osc_scan(s, i + 1, j);
    }
}

/// What an escape sequence is: ESC and `[`, then anything up to a character from `@` to
/// `~`; ESC and `]`, then anything up to BEL, or to ESC and a backslash; ESC, a character
/// from space to `/` and one more; or ESC and any other character. It is taken out as a
/// whole, and nothing after it.
#[verifier::rlimit(50)]
#[verifier::spinoff_prover]
pub proof fn law_escape_sequences(middle: Seq<char>, c: char, t: Seq<char>)
    ensures
        ({
            let csi = seq![ESC, '['] + middle + seq![c];
            (forall|k: int| 0 <= k < middle.len() ==> !('@' <= #[trigger] middle[k] <= '~')) && '@'
                <= c <= '~' ==> escape_len(csi + t) == csi.len() && visible_text(csi + t)
                == visible_text(t)
        }),
        ({
            let osc = seq![ESC, ']'] + middle;
            let bel = osc + seq![BEL];
            let st = osc + seq![ESC, '\\'];
            (forall|k: int|
                0 <= k < middle.len() ==> #[trigger] middle[k] != BEL && middle[k] != ESC) ==> {
                &&& escape_len(bel + t) == bel.len() && visible_text(bel + t) == visible_text(t)
                &&& escape_len(st + t) == st.len() && visible_text(st + t) == visible_text(t)
            }
        }),
        ({
            let two = seq![ESC, c];
            c != '[' && c != ']' && !(' ' <= c <= '/') ==> escape_len(two + t) == 2 && visible_text(
                two + t,
            ) == visible_text(t)
        }),
        ({
            let pair = seq![ESC, c];
            ' ' <= c <= '/' && t.len() > 0 ==> escape_len(pair + t) == 3 && visible_text(pair + t)
                == visible_text(t.skip(1))
        }),
        c != ESC ==> escape_len(seq![c] + t) == 0 && visible_text(seq![c] + t) == seq![c]
            + visible_text(t),
{
    let m = middle.len() as int;
    if (forall|k: int| 0 <= k < m ==> !('@' <= #[trigger] middle[k] <= '~')) && '@' <= c <= '~' {
        let s = seq![ESC, '['] + middle + seq![c] + t;
        assert forall|k: int| 2 <= k < 2 + m implies !('@' <= #[trigger] s[k] <= '~') by {
            assert(s[k] == middle[k - 2]);
        }
        lemma_csi_scan(s, 2, 2 + m);
        assert(s.skip(3 + m) =~= t);
    }
    if forall|k: int| 0 <= k < m ==> #[trigger] middle[k] != BEL && middle[k] != ESC {
        let a = seq![ESC, ']'] + middle + seq![BEL] + t;
        let b = seq![ESC, ']'] + middle + seq![ESC, '\\'] + t;
        assert forall|k: int| 2 <= k < 2 + m implies #[trigger] a[k] != BEL && a[k] != ESC by {
            assert(a[k] == middle[k - 2]);
        }
        assert forall|k: int| 2 <= k < 2 + m implies #[trigger] b[k] != BEL && b[k] != ESC by {
            assert(b[k] == middle[k - 2]);
        }
        lemma_osc_scan(a, 2, 2 + m);
        lemma_osc_scan(b, 2, 2 + m);
        assert(a.skip(3 + m) =~= t);
        assert(b.skip(4 + m) =~= t);
    }
    let two = seq![ESC, c] + t;
    assert(two.skip(2) =~= t);
    if t.len() > 0 {
        assert(two.skip(3) =~= t.skip(1));
    }
    assert((seq![c] + t).skip(1) =~= t);
}

/// A text without tabs that is narrower than the screen is shown as it is.
proof fn lemma_shown_all(s: Seq<char>, col: nat, used: nat, max: nat)
    requires
        !s.contains('\t'),
        used + width::display_columns(visible_text(s)) < max,
    ensures
        shown(s, col, used, max) == s,
    decreases s.len(),
{
    if s.len() > 0 {
        lemma_escape_len(s);
        let e = escape_len(s);
        let k = if e > 0 {
            e
        } else {
            1
        };
        let rest = s.skip(k);
        assert forall|c: char| rest.contains(c) implies s.contains(c) by {
            let i = choose|i: int| 0 <= i < rest.len() && rest[i] == c;
            assert(s[i + k] == c);
        }
        if e > 0 {
            lemma_shown_all(rest, col, used, max);
            assert(s.take(e) + rest =~= s);
        } else {
            let c = s[0];
            assert(s.contains(c));
            let w = cell_width(c, col, false);
            width::lemma_display_columns_concat(seq![c], visible_text(rest));
            width::law_display_columns(Seq::empty(), c);
            assert(Seq::<char>::empty().push(c) =~= seq![c]);
            lemma_shown_all(rest, col + w, used + w, max);
            assert(seq![c] + rest =~= s);
        }
    }
}

/// A line that begins with something visible, has no tabs and is narrower than the
/// screen loses nothing of its text, not even characters that take no columns.
pub proof fn law_window_whole(line: Seq<char>, max: nat)
    requires
        !line.contains('\t'),
        all_complete(line),
        visible_text(line).len() > 0,
        width::columns(visible_text(line)[0]) >= 1,
        width::display_columns(visible_text(line)) < max,
    ensures
        visible_text(window(line, 0, max, false)) == visible_text(line),
{
    let none = Seq::<char>::empty();
    lemma_empty_invisible();
    lemma_opening_style(line, 0, none, 0);
    let rest = lemma_opening_whole(line, none);
    let o = opening(line, 0, none, 0)->0;
    lemma_shown_all(rest, 0, 0, max);
    let tail = if is_styled(o, max) {
        sgr_reset()
    } else {
        none
    };
    let w = window(line, 0, max, false);
    assert(w =~= o.style + (rest + tail));
    law_strip_concat(rest, tail);
    reveal_strlit("\x1b[m");
    assert(escape_len(sgr_reset()) == 3);
    assert(sgr_reset().skip(3) =~= none);
    assert(visible_text(none) =~= none);
    assert(visible_text(tail) =~= none);
    assert(visible_text(rest) + visible_text(tail) =~= visible_text(rest));
}

/// At column 0 the visible part begins with the first character that shows.
proof fn lemma_opening_whole(s: Seq<char>, style: Seq<char>) -> (rest: Seq<char>)
    requires
        !s.contains('\t'),
        all_complete(s),
        visible_text(s).len() > 0,
        width::columns(visible_text(s)[0]) >= 1,
    ensures
        opening(s, 0, style, 0) matches Some(o) && o.rest == rest && o.pad == 0 && o.col == 0,
        visible_text(rest) == visible_text(s),
        !rest.contains('\t'),
        all_complete(rest),
    decreases s.len(),
{
    lemma_escape_len(s);
    let e = escape_len(s);
    if e > 0 {
        let t = s.skip(e);
        assert forall|c: char| t.contains(c) implies s.contains(c) by {
            let i = choose|i: int| 0 <= i < t.len() && t[i] == c;
            assert(s[i + e] == c);
        }
        lemma_opening_whole(t, restyle(style, s.take(e)))
    } else {
        assert(visible_text(s)[0] == s[0]);
        assert(s.contains(s[0]));
        s
    }
}

/// An escape sequence that does not end takes all that follows with it: nothing of it is
/// visible.
pub proof fn law_unfinished_sequences(middle: Seq<char>)
    ensures
        visible_text(seq![ESC]).len() == 0,
        (forall|k: int| 0 <= k < middle.len() ==> !('@' <= #[trigger] middle[k] <= '~'))
            ==> visible_text(seq![ESC, '['] + middle).len() == 0,
        (forall|k: int|
            0 <= k < middle.len() ==> #[trigger] middle[k] != BEL && middle[k] != ESC)
            ==> visible_text(seq![ESC, ']'] + middle).len() == 0,
{
    let none = Seq::<char>::empty();
    let csi = seq![ESC, '['] + middle;
    let osc = seq![ESC, ']'] + middle;
    assert(visible_text(none).len() == 0);
    assert(seq![ESC].skip(1) =~= none);
    assert(csi.skip(csi.len() as int) =~= none);
    assert(osc.skip(osc.len() as int) =~= none);
    if forall|k: int| 0 <= k < middle.len() ==> !('@' <= #[trigger] middle[k] <= '~') {
        assert forall|k: int| 2 <= k < csi.len() implies !('@' <= #[trigger] csi[k] <= '~') by {
            assert(csi[k] == middle[k - 2]);
        }
        lemma_csi_unfinished(csi, 2);
    }
    if forall|k: int| 0 <= k < middle.len() ==> #[trigger] middle[k] != BEL && middle[k] != ESC {
        assert forall|k: int| 2 <= k < osc.len() implies #[trigger] osc[k] != BEL && osc[k]
            != ESC by {
            assert(osc[k] == middle[k - 2]);
        }
        lemma_osc_unfinished(osc, 2);
    }
}

proof fn lemma_csi_unfinished(s: Seq<char>, i: int)
    requires
        2 <= i <= s.len(),
        forall|k: int| i <= k < s.len() ==> !('@' <= #[trigger] s[k] <= '~'),
    ensures
        csi_end(s, i) == s.len(),
    decreases s.len() - i,
{
    if i < s.len() {
        lemma_csi_unfinished(s, i + 1);
    }
}

proof fn lemma_osc_unfinished(s: Seq<char>, i: int)
    requires
        2 <= i <= s.len(),
        forall|k: int| i <= k < s.len() ==> #[trigger] s[k] != BEL && s[k] != ESC,
    ensures
        osc_end(s, i) == s.len(),
    decreases s.len() - i,
{
    if i < s.len() {
        lemma_osc_unfinished(s, i + 1);
    }
}

} // verus!

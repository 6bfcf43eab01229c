//! Scrolling where long lines go on in the rows below.
use crate::ansi;
use crate::buffer;
use crate::width;
use vstd::prelude::*;

verus! {

/// Columns that a line takes; escape sequences count only in raw mode.
pub open spec fn line_columns(line: Seq<char>, raw: bool) -> nat {
    if raw {
        width::str_columns(line) as nat
    } else {
        width::display_columns(ansi::visible_text(line))
    }
}

/// Rows of `w` columns that are needed for `columns`: at least one.
pub open spec fn rows_for(columns: nat, w: int) -> int {
    if columns == 0 {
        1
    } else {
        (columns - 1) / w + 1
    }
}

/// The lines that are shown, and how.
#[verifier::ext_equal]
pub struct Page {
    pub buffer: buffer::BufferView,
    /// Columns of the screen.
    pub width: int,
    pub raw: bool,
}

impl Page {
    /// Rows that a line takes; one where there is no line.
    pub open spec fn rows(self, line: int) -> int {
        if 0 <= line < self.buffer.lines.len() {
            rows_for(line_columns(self.buffer.lines[line], self.raw), self.width)
        } else {
            1
        }
    }

    /// The top line after scrolling down by `n` rows: one line further at least, and
    /// then on as `down_fitting` tells. The last line stays. `Err` tells a line that has
    /// to be read first.
    pub open spec fn down(self, top: int, n: int) -> Result<int, int> {
        if n <= 0 {
            Ok(top)
        } else if top >= self.buffer.lines.len() && self.buffer.can_read() {
            Err(top)
        } else if top + 1 < self.buffer.lines.len() {
            self.down_fitting(top + 1, n - self.rows(top))
        } else if self.buffer.can_read() {
            Err(top + 1)
        } else {
            Ok(top)
        }
    }

    /// The line that is reached from `top` by `n` rows, a line at a time as long as it
    /// has no more rows than are left. The last line stays.
    pub open spec fn down_fitting(self, top: int, n: int) -> Result<int, int>
        decreases self.buffer.lines.len() - top,
    {
        if n <= 0 || n < self.rows(top) {
            Ok(top)
        } else if top + 1 < self.buffer.lines.len() {
            self.down_fitting(top + 1, n - self.rows(top))
        } else if self.buffer.can_read() {
            Err(top + 1)
        } else {
            Ok(top)
        }
    }

    /// The top line after scrolling up by `n` rows, a line at a time.
    pub open spec fn up(self, top: int, n: int) -> int
        decreases top,
    {
        if n <= 0 || top <= 0 {
            top
        } else {
            self.up(top - 1, n - self.rows(top - 1))
        }
    }

    /// The rows that the lines from `line` on take after `used`, or `None` if they
    /// fill the screen. `Err` tells a line that has to be read first.
    pub open spec fn filled(self, line: int, used: int, h: int) -> Result<Option<int>, int>
        decreases self.buffer.lines.len() - line,
    {
        if line >= self.buffer.lines.len() {
            if self.buffer.can_read() {
                Err(line)
            } else {
                Ok(Some(used))
            }
        } else if used + self.rows(line) >= h {
            Ok(None)
        } else {
            self.filled(line + 1, used + self.rows(line), h)
        }
    }

    /// The line to go up to from `top` so that the screen gets full, when the lines
    /// from `top` on take `used` rows of it.
    pub open spec fn raised(self, top: int, used: int, h: int) -> int
        decreases top,
    {
        if top <= 0 || used >= h {
            top
        } else {
            self.raised(top - 1, used + self.rows(top - 1), h)
        }
    }

    /// The top line that is used for `top`: one further up if the lines end before
    /// the screen does. `Err` tells a line that has to be read first.
    pub open spec fn clamp(self, top: int, h: int) -> Result<int, int> {
        match self.filled(top, 0, h) {
            Err(n) => Err(n),
            Ok(Some(used)) if self.buffer.finished => Ok(self.raised(top, used, h)),
            Ok(_) => Ok(top),
        }
    }

    /// The line to go up to from `top` as long as the lines still fit on the screen,
    /// when those from `top` on take `used` rows of it.
    pub open spec fn fitted(self, top: int, used: int, h: int) -> int
        decreases top,
    {
        if top <= 0 || used + self.rows(top - 1) > h {
            top
        } else {
            self.fitted(top - 1, used + self.rows(top - 1), h)
        }
    }

    /// The top line that shows the end: as many of the last lines as fit, and the last
    /// one in any case.
    pub open spec fn bottom(self, h: int) -> int {
        let n = self.buffer.lines.len() as int;
        if n == 0 {
            0
        } else {
            self.fitted(n - 1, self.rows(n - 1), h)
        }
    }

    /// Rows that the lines from `from` to before `to` take.
    pub open spec fn rows_between(self, from: int, to: int) -> int
        decreases to - from,
    {
        if from >= to {
            0
        } else {
            self.rows(from) + self.rows_between(from + 1, to)
        }
    }

    /// Rows that the lines from `line` to the end take.
    pub open spec fn rows_from(self, line: int) -> int {
        self.rows_between(line, self.buffer.lines.len() as int)
    }

    /// A line takes at least one row.
    pub proof fn lemma_rows(self, line: int)
        requires
            self.width >= 1,
        ensures
            self.rows(line) >= 1,
    {
        if 0 <= line < self.buffer.lines.len() {
            let c = line_columns(self.buffer.lines[line], self.raw);
            if c > 0 {
                vstd::arithmetic::div_mod::lemma_div_pos_is_pos(c - 1, self.width);
            }
        }
    }

    proof fn lemma_down_fitting(self, top: int, n: int)
        requires
            self.width >= 1,
            0 <= top < self.buffer.lines.len(),
        ensures
            match self.down_fitting(top, n) {
                Ok(t) => {
                    &&& top <= t < self.buffer.lines.len()
                    &&& t == top || self.rows_between(top, t) <= n
                    &&& n < self.rows_between(top, t + 1) || t + 1 >= self.buffer.lines.len()
                    &&& self.buffer.can_read() ==> n < self.rows_between(top, t + 1)
                },
                Err(line) => line == self.buffer.lines.len() && self.buffer.can_read(),
            },
        decreases self.buffer.lines.len() - top,
    {
        self.lemma_rows(top);
        assert(self.rows_between(top, top) == 0);
        assert(self.rows_between(top + 1, top + 1) == 0);
        assert(self.rows_between(top, top + 1) == self.rows(top));
        if n > 0 && !(n < self.rows(top)) && top + 1 < self.buffer.lines.len() {
            self.lemma_down_fitting(top + 1, n - self.rows(top));
        }
    }

    /// Scrolling down goes at least one line further where there is one. Beyond that it
    /// passes over lines that fit in the rows that were asked for, and stops only where
    /// the next one does not fit or is the last. A line that may come after those that
    /// were read is asked for.
    pub proof fn law_down(self, top: int, n: int)
        requires
            self.width >= 1,
            0 <= n,
            0 <= top,
            top == 0 || top < self.buffer.lines.len(),
        ensures
            match self.down(top, n) {
                Ok(t) => {
                    &&& top <= t
                    &&& t == 0 || t < self.buffer.lines.len()
                    &&& n >= 1 && top + 1 < self.buffer.lines.len() ==> t > top
                    &&& t > top + 1 ==> self.rows_between(top, t) <= n
                    &&& n < self.rows_between(top, t + 1) || t + 1 >= self.buffer.lines.len()
                    &&& self.buffer.can_read() ==> n < self.rows_between(top, t + 1)
                },
                Err(line) => line >= self.buffer.lines.len() && self.buffer.can_read(),
            },
    {
        self.lemma_rows(top);
        assert(self.rows_between(top, top) == 0);
        assert(self.rows_between(top + 1, top + 1) == 0);
        assert(self.rows_between(top, top + 1) == self.rows(top));
        if n > 0 && top + 1 < self.buffer.lines.len() {
            self.lemma_down_fitting(top + 1, n - self.rows(top));
        }
    }

    /// Scrolling up passes over as few lines as make up the rows that were asked for,
    /// or over all.
    pub proof fn law_up(self, top: int, n: int)
        requires
            self.width >= 1,
            0 <= n,
            0 <= top,
        ensures
            ({
                let t = self.up(top, n);
                &&& 0 <= t <= top
                &&& t == 0 || self.rows_between(t, top) >= n
                &&& t < top ==> self.rows_between(t + 1, top) < n
            }),
        decreases top,
    {
        if n > 0 && top > 0 {
            self.lemma_rows(top - 1);
            let m = n - self.rows(top - 1);
            let t = self.up(top, n);
            if m > 0 {
                self.law_up(top - 1, m);
                self.lemma_rows_between_split(t, top - 1);
                if t < top - 1 {
                    self.lemma_rows_between_split(t + 1, top - 1);
                }
            } else {
                assert(self.up(top - 1, m) == top - 1);
                assert(self.rows_between(top, top) == 0);
            }
        }
    }

    /// The last line counts on its own.
    proof fn lemma_rows_between_split(self, from: int, to: int)
        requires
            from <= to,
        ensures
            self.rows_between(from, to + 1) == self.rows_between(from, to) + self.rows(to),
        decreases to - from,
    {
        if from < to {
            self.lemma_rows_between_split(from + 1, to);
        } else {
            assert(self.rows_between(to + 1, to + 1) == 0);
        }
    }

    /// `filled` compares the rows of the lines that are left with those of the screen.
    proof fn lemma_filled(self, line: int, used: int, h: int)
        requires
            self.width >= 1,
            0 <= line,
        ensures
            match self.filled(line, used, h) {
                Ok(Some(u)) => {
                    &&& u == used + self.rows_from(line)
                    &&& used < h ==> u < h
                    &&& !self.buffer.can_read()
                },
                Ok(None) => used + self.rows_from(line) >= h,
                Err(n) => n >= self.buffer.lines.len() && self.buffer.can_read(),
            },
        decreases self.buffer.lines.len() - line,
    {
        if line < self.buffer.lines.len() {
            self.lemma_rows(line);
            self.lemma_filled(line + 1, used + self.rows(line), h);
            self.lemma_rows_between_nonneg(line + 1);
        }
    }

    proof fn lemma_rows_between_nonneg(self, line: int)
        requires
            self.width >= 1,
        ensures
            self.rows_from(line) >= 0,
        decreases self.buffer.lines.len() - line,
    {
        if line < self.buffer.lines.len() {
            self.lemma_rows(line);
            self.lemma_rows_between_nonneg(line + 1);
        }
    }

    /// Lines take no less than no rows.
    pub proof fn lemma_some_rows(self, from: int, to: int)
        requires
            self.width >= 1,
        ensures
            self.rows_between(from, to) >= 0,
        decreases to - from,
    {
        if from < to {
            self.lemma_rows(from);
            self.lemma_some_rows(from + 1, to);
        }
    }

    /// The lines from further down take no more rows.
    pub proof fn lemma_rows_from_falls(self, a: int, b: int)
        requires
            self.width >= 1,
            a <= b,
        ensures
            self.rows_from(b) <= self.rows_from(a),
        decreases b - a,
    {
        if a < b {
            self.lemma_rows(a);
            self.lemma_rows_from_falls(a + 1, b);
            self.lemma_rows_between_nonneg(b);
        }
    }

    proof fn lemma_raised(self, top: int, h: int)
        requires
            self.width >= 1,
            0 <= top <= self.buffer.lines.len(),
        ensures
            ({
                let t = self.raised(top, self.rows_from(top), h);
                &&& 0 <= t <= top
                &&& t == 0 || self.rows_from(t) >= h
                &&& t < top ==> self.rows_from(t + 1) < h
            }),
        decreases top,
    {
        if top > 0 && self.rows_from(top) < h {
            assert(self.rows_from(top - 1) == self.rows(top - 1) + self.rows_from(top));
            self.lemma_raised(top - 1, h);
        }
    }

    proof fn lemma_fitted(self, top: int, h: int)
        requires
            self.width >= 1,
            0 <= top < self.buffer.lines.len(),
        ensures
            ({
                let t = self.fitted(top, self.rows_from(top), h);
                &&& 0 <= t <= top
                &&& t == top || self.rows_from(t) <= h
                &&& t == 0 || self.rows_from(t - 1) > h
            }),
        decreases top,
    {
        if top > 0 {
            assert(self.rows_from(top - 1) == self.rows(top - 1) + self.rows_from(top));
            if self.rows_from(top - 1) <= h {
                self.lemma_fitted(top - 1, h);
            }
        }
    }

    /// At the bottom the lines to the end fit on the screen, or there is only the last
    /// one, and no more of them would fit.
    pub proof fn law_bottom(self, h: int)
        requires
            self.width >= 1,
        ensures
            ({
                let t = self.bottom(h);
                let n = self.buffer.lines.len();
                &&& 0 <= t
                &&& t == 0 || t < n
                &&& n > 0 ==> t == n - 1 || self.rows_from(t) <= h
                &&& t == 0 || self.rows_from(t - 1) > h
            }),
    {
        let n = self.buffer.lines.len() as int;
        if n > 0 {
            assert(self.rows_from(n) == 0);
            assert(self.rows_from(n - 1) == self.rows(n - 1));
            self.lemma_fitted(n - 1, h);
        }
    }

    /// Once all lines are read, no top line below the bottom is used.
    pub proof fn law_bottom_is_last(self, top: int, h: int)
        requires
            self.width >= 1,
            h >= 1,
            0 <= top,
            top == 0 || top < self.buffer.lines.len(),
            self.buffer.finished,
        ensures
            self.clamp(top, h) matches Ok(t) ==> t <= self.bottom(h),
    {
        let b = self.bottom(h);
        let n = self.buffer.lines.len();
        self.law_bottom(h);
        self.law_clamp(top, h);
        if let Ok(t) = self.clamp(top, h) {
            if t > b {
                self.lemma_rows(b);
                self.lemma_rows_from_falls(b + 1, t);
                assert(self.rows_from(b) == self.rows(b) + self.rows_from(b + 1));
            }
        }
    }

    /// Once all lines are read, the screen is full or begins with the first line, and
    /// the top line goes up no further than that takes. Before that, lines are asked for
    /// until the screen is full.
    pub proof fn law_clamp(self, top: int, h: int)
        requires
            self.width >= 1,
            h >= 1,
            0 <= top,
            top == 0 || top < self.buffer.lines.len(),
            self.buffer.has_source || self.buffer.finished,
        ensures
            match self.clamp(top, h) {
                Ok(t) => {
                    &&& 0 <= t <= top
                    &&& self.buffer.finished ==> t == 0 || self.rows_from(t) >= h
                    &&& t < top ==> self.rows_from(t + 1) < h
                    &&& self.buffer.can_read() ==> t == top && self.rows_from(top) >= h
                },
                Err(n) => n >= self.buffer.lines.len() && self.buffer.can_read(),
            },
    {
        self.lemma_filled(top, 0, h);
        self.lemma_raised(top, h);
    }
}

/// The page that lines are shown on.
pub open spec fn page(buffer: buffer::BufferView, w: usize, raw: bool) -> Page {
    Page { buffer, width: w as int, raw }
}

/// Columns that a line takes.
pub fn columns_of(line: &str, raw: bool) -> (r: usize)
    ensures
        r == line_columns(line@, raw),
{
    if raw {
        width::text_width(line)
    } else {
        ansi::visible_width(line)
    }
}

/// Rows of `w` columns that are needed for `columns`.
pub fn rows_needed(columns: usize, w: usize) -> (r: usize)
    requires
        w >= 1,
    ensures
        r == rows_for(columns as nat, w as int),
        r >= 1,
{
    if columns == 0 {
        1
    } else {
        proof {
            vstd::arithmetic::div_mod::lemma_div_is_ordered_by_denominator(
                columns - 1,
                1,
                w as int,
            );
            vstd::arithmetic::div_mod::lemma_div_pos_is_pos(columns - 1, w as int);
        }
        (columns - 1) / w + 1
    }
}

/// Rows that a line takes; one where there is no line.
pub fn wrapped_line_rows(lines: &buffer::ShownLines, line: usize, w: usize, raw: bool) -> (r:
    usize)
    requires
        lines.wf(),
        w >= 1,
    ensures
        r == page(lines@, w, raw).rows(line as int),
        r >= 1,
{
    match lines.get_line(line) {
        Some(s) => rows_needed(columns_of(s, raw), w),
        None => 1,
    }
}

/// Scroll down by rows of the screen; see `Page::down`.
pub fn scroll_down_wrapped(
    lines: &buffer::ShownLines,
    w: usize,
    raw: bool,
    top: usize,
    rows: usize,
) -> (r: Result<usize, usize>)
    requires
        lines.wf(),
        w >= 1,
        top == 0 || top < lines@.lines.len(),
    ensures
        match r {
            Ok(t) => page(lines@, w, raw).down(top as int, rows as int) == Ok::<int, int>(
                t as int,
            ),
            Err(n) => page(lines@, w, raw).down(top as int, rows as int) == Err::<int, int>(
                n as int,
            ),
        },
        r matches Ok(t) ==> t == 0 || t < lines@.lines.len(),
{
    let ghost p = page(lines@, w, raw);
    let len: usize = lines.len();
    let can_read: bool = lines.can_read();
    if rows == 0 {
        return Ok(top);
    }
    if top >= len && can_read {
        return Err(top);
    }
    if len == 0 || top >= len - 1 {
        if can_read {
            return Err(top + 1);
        }
        return Ok(top);
    }
    let first: usize = wrapped_line_rows(lines, top, w, raw);
    let mut line: usize = top + 1;
    let mut left: usize = rows.saturating_sub(first);
    assert(rows <= first ==> p.down_fitting(line as int, rows - first) == p.down_fitting(
        line as int,
        0,
    ));
    while left > 0
        invariant
            lines.wf(),
            w >= 1,
            p == page(lines@, w, raw),
            len == lines@.lines.len(),
            can_read == lines@.can_read(),
            line < len,
            p.down(top as int, rows as int) == p.down_fitting(line as int, left as int),
        decreases left,
    {
        let taken: usize = wrapped_line_rows(lines, line, w, raw);
        if left < taken {
            return Ok(line);
        }
        if line >= len - 1 {
            if can_read {
                return Err(line + 1);
            }
            return Ok(line);
        }
        line = line + 1;
        left = left - taken;
    }
    Ok(line)
}

/// Scroll up by rows of the screen; see `Page::up`.
pub fn scroll_up_wrapped(
    lines: &buffer::ShownLines,
    w: usize,
    raw: bool,
    top: usize,
    rows: usize,
) -> (r: usize)
    requires
        lines.wf(),
        w >= 1,
    ensures
        r == page(lines@, w, raw).up(top as int, rows as int),
        r <= top,
{
    let ghost p = page(lines@, w, raw);
    let mut line: usize = top;
    let mut left: usize = rows;
    while left > 0 && line > 0
        invariant
            lines.wf(),
            w >= 1,
            p == page(lines@, w, raw),
            line <= top,
            p.up(top as int, rows as int) == p.up(line as int, left as int),
        decreases line,
    {
        let taken: usize = wrapped_line_rows(lines, line - 1, w, raw);
        line = line - 1;
        assert(left <= taken ==> p.up(line as int, left - taken) == line);
        left = left.saturating_sub(taken);
    }
    line
}

/// The top line that shows the end; see `Page::bottom`.
pub fn bottom_top_line_wrapped(lines: &buffer::ShownLines, w: usize, h: usize, raw: bool) -> (r:
    usize)
    requires
        lines.wf(),
        w >= 1,
    ensures
        r == page(lines@, w, raw).bottom(h as int),
        r == 0 || r < lines@.lines.len(),
{
    let ghost p = page(lines@, w, raw);
    let len: usize = lines.len();
    if len == 0 {
        return 0;
    }
    let mut t: usize = len - 1;
    let mut used: usize = wrapped_line_rows(lines, t, w, raw);
    let mut done: bool = false;
    while t > 0 && !done
        invariant
            lines.wf(),
            w >= 1,
            p == page(lines@, w, raw),
            len == lines@.lines.len(),
            t < len,
            !done ==> p.bottom(h as int) == p.fitted(t as int, used as int, h as int),
            done ==> p.bottom(h as int) == t,
        decreases t, (if done {
            0int
        } else {
            1int
        }),
    {
        let taken: usize = wrapped_line_rows(lines, t - 1, w, raw);
        if used > h || taken > h - used {
            done = true;
        } else {
            t = t - 1;
            used = used + taken;
        }
    }
    t
}

/// The top line that is used for `top`; see `Page::clamp`.
pub fn clamp_top_line_wrapped(
    lines: &buffer::ShownLines,
    w: usize,
    h: usize,
    raw: bool,
    top: usize,
) -> (r: Result<usize, usize>)
    requires
        lines.wf(),
        w >= 1,
        h >= 1,
        top == 0 || top < lines@.lines.len(),
    ensures
        match r {
            Ok(t) => page(lines@, w, raw).clamp(top as int, h as int) == Ok::<int, int>(
                t as int,
            ),
            Err(n) => page(lines@, w, raw).clamp(top as int, h as int) == Err::<int, int>(
                n as int,
            ),
        },
        r matches Ok(t) ==> t <= top,
{
    let ghost p = page(lines@, w, raw);
    let len: usize = lines.len();
    let can_read: bool = lines.can_read();
    let mut used: usize = 0;
    let mut line: usize = top;
    while line < len
        invariant
            lines.wf(),
            w >= 1,
            p == page(lines@, w, raw),
            len == lines@.lines.len(),
            line == 0 || line <= len,
            used < h,
            p.filled(top as int, 0, h as int) == p.filled(line as int, used as int, h as int),
        decreases len - line,
    {
        let taken: usize = wrapped_line_rows(lines, line, w, raw);
        if taken >= h - used {
            return Ok(top);
        }
        used = used + taken;
        line = line + 1;
    }
    if can_read {
        return Err(line);
    }
    if !lines.is_finished() {
        return Ok(top);
    }
    let ghost start = used;
    let mut t: usize = top;
    let mut full: bool = false;
    while t > 0 && !full
        invariant
            lines.wf(),
            w >= 1,
            p == page(lines@, w, raw),
            t <= top,
            !full ==> used < h && p.raised(top as int, start as int, h as int) == p.raised(
                t as int,
                used as int,
                h as int,
            ),
            full ==> p.raised(top as int, start as int, h as int) == t,
        decreases t,
    {
        let taken: usize = wrapped_line_rows(lines, t - 1, w, raw);
        t = t - 1;
        if taken >= h - used {
            full = true;
            assert(p.raised(t as int, used + taken, h as int) == t);
        } else {
            used = used + taken;
        }
    }
    Ok(t)
}

/// A line that is wrapped takes as few rows as hold its columns, and at least one.
pub proof fn law_rows(p: Page, line: int)
    requires
        p.width >= 1,
        0 <= line < p.buffer.lines.len(),
    ensures
        ({
            let s = p.buffer.lines[line];
            let columns = if p.raw {
                width::str_columns(s) as int
            } else {
                width::display_columns(ansi::visible_text(s)) as int
            };
            let r = p.rows(line);
            &&& r >= 1
            &&& r * p.width >= columns
            &&& r > 1 ==> (r - 1) * p.width < columns
        }),
{
    let c = line_columns(p.buffer.lines[line], p.raw) as int;
    let w = p.width;
    p.lemma_rows(line);
    if c > 0 {
        let q = (c - 1) / w;
        vstd::arithmetic::div_mod::lemma_fundamental_div_mod(c - 1, w);
        vstd::arithmetic::div_mod::lemma_mod_bound(c - 1, w);
        assert(w * q == q * w && (q + 1) * w == q * w + w) by (nonlinear_arith);
    } else {
        assert(1 * w >= 0) by (nonlinear_arith)
            requires
                w >= 1,
        ;
    }
}

} // verus!

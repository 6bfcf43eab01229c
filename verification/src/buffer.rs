//! The lines that were read so far.
use crate::text;
use vstd::prelude::*;
use vstd::utf8::*;

verus! {

/// Bytes of a line that are kept: 64KB.
pub const MAX_LINE_LEN: usize = 65536;

/// Bytes of a file that are searched for a zero: 8KB.
pub const BINARY_CHECK_SIZE: usize = 8192;

/// Lines that are read at once when a certain line is needed.
pub const LINE_BATCH: usize = 256;

/// Lines that are read at once when all are needed.
pub const FULL_BATCH: usize = 4096;

/// Whether bytes from the start of an input say that it is binary: there is a zero
/// among the first 8KB.
pub open spec fn is_binary(head: Seq<u8>) -> bool {
    exists|i: int| 0 <= i < head.len() && i < BINARY_CHECK_SIZE && #[trigger] head[i] == 0
}

/// What an attempt to read a line gave.
pub enum ReadOutcome {
    /// A line, with its line feed unless the input ends without one.
    Line(String),
    /// The end of the input.
    Eof,
    /// An error.
    Failed,
}

/// `char::len_utf8` is the number of bytes of a character in UTF-8.
pub assume_specification[ char::len_utf8 ](c: char) -> (r: usize)
    ensures
        r == encode_scalar(c as u32).len(),
;

/// A line without its line feed, and without the carriage return before that.
pub open spec fn without_ending(s: Seq<char>) -> Seq<char> {
    if s.len() > 0 && s.last() == '\n' {
        text::without_cr(s.drop_last())
    } else {
        s
    }
}

/// As many characters from the start of `s` as fit in `limit` bytes.
pub open spec fn fit(s: Seq<char>, limit: int) -> Seq<char>
    decreases s.len(),
{
    if s.len() == 0 {
        Seq::empty()
    } else {
        let n = encode_scalar(s[0] as u32).len();
        if n > limit {
            Seq::empty()
        } else {
            seq![s[0]] + fit(s.skip(1), limit - n)
        }
    }
}

/// `fit` takes the longest part from the start that is not longer than `limit` bytes.
proof fn lemma_fit(s: Seq<char>, limit: int)
    requires
        0 <= limit,
    ensures
        ({
            let f = fit(s, limit);
            &&& f.is_prefix_of(s)
            &&& encode_utf8(f).len() <= limit
            &&& f.len() < s.len() ==> encode_utf8(s.take(f.len() as int + 1)).len() > limit
        }),
    decreases s.len(),
{
    let f = fit(s, limit);
    if s.len() == 0 {
        assert(encode_utf8(f).len() == 0);
    } else {
        let first = seq![s[0]];
        let n = encode_scalar(s[0] as u32).len();
        text::lemma_encode_one(s[0]);
        if n > limit {
            assert(encode_utf8(f).len() == 0);
            assert(s.take(1) =~= first);
        } else {
            let rest = s.skip(1);
            let g = fit(rest, limit - n);
            lemma_fit(rest, limit - n);
            assert(f =~= first + g);
            text::lemma_encode_concat(first, g);
            assert(f =~= s.take(f.len() as int));
            if f.len() < s.len() {
                let longer = rest.take(g.len() as int + 1);
                text::lemma_encode_concat(first, longer);
                assert(s.take(f.len() as int + 1) =~= first + longer);
            }
        }
    }
}

/// A line that is longer than `MAX_LINE_LEN` bytes is cut, and says so.
pub open spec fn shortened(s: Seq<char>) -> Seq<char> {
    if encode_utf8(s).len() > MAX_LINE_LEN {
        fit(s, MAX_LINE_LEN as int) + " [truncated]"@
    } else {
        s
    }
}

/// The line that is kept of what was read.
pub open spec fn kept_line(s: Seq<char>) -> Seq<char> {
    shortened(without_ending(s))
}

/// A line that is kept is what was read without its ending, if that has at most
/// `MAX_LINE_LEN` bytes; else it is as much of it as has so many, and a note.
pub proof fn law_kept_line(s: Seq<char>)
    ensures
        ({
            let line = without_ending(s);
            let kept = kept_line(s);
            if encode_utf8(line).len() <= MAX_LINE_LEN {
                kept == line
            } else {
                let part = kept.take(kept.len() - " [truncated]"@.len());
                &&& kept == part + " [truncated]"@
                &&& part.is_prefix_of(line)
                &&& part.len() < line.len()
                &&& encode_utf8(part).len() <= MAX_LINE_LEN
                &&& encode_utf8(line.take(part.len() as int + 1)).len() > MAX_LINE_LEN
            }
        }),
{
    let line = without_ending(s);
    let part = fit(line, MAX_LINE_LEN as int);
    lemma_fit(line, MAX_LINE_LEN as int);
    if encode_utf8(line).len() > MAX_LINE_LEN {
        let kept = kept_line(s);
        assert(kept.take(kept.len() - " [truncated]"@.len()) =~= part);
        if part.len() == line.len() {
            assert(part =~= line);
        }
    }
}

/// The lines that attempts to read gave, up to the first that gave none.
pub open spec fn lines_read(reads: Seq<ReadOutcome>) -> Seq<Seq<char>>
    decreases reads.len(),
{
    if reads.len() == 0 {
        Seq::empty()
    } else {
        match reads[0] {
            ReadOutcome::Line(s) => seq![kept_line(s@)] + lines_read(reads.skip(1)),
            _ => Seq::empty(),
        }
    }
}

/// Whether some attempt to read gave no line.
pub open spec fn stops(reads: Seq<ReadOutcome>) -> bool {
    exists|i: int| 0 <= i < reads.len() && !(#[trigger] reads[i] is Line)
}

/// What a buffer holds.
#[verifier::ext_equal]
pub struct BufferView {
    pub lines: Seq<Seq<char>>,
    /// Whether there is an input to read from.
    pub has_source: bool,
    /// Whether the end of the input was seen.
    pub finished: bool,
}

impl BufferView {
    /// Whether more lines can be read.
    pub open spec fn can_read(self) -> bool {
        self.has_source && !self.finished
    }

    /// The buffer after attempts to read.
    pub open spec fn after(self, reads: Seq<ReadOutcome>) -> BufferView {
        if self.can_read() {
            BufferView {
                lines: self.lines + lines_read(reads),
                has_source: true,
                finished: stops(reads),
            }
        } else {
            self
        }
    }

    /// Some of the lines, with nothing more to read.
    pub open spec fn only(self, among: Seq<usize>) -> BufferView {
        BufferView {
            lines: among.map_values(|i: usize| self.lines[i as int]),
            has_source: false,
            finished: true,
        }
    }

    /// The buffer after a look for new lines, even though the end was seen.
    pub open spec fn polled(self, reads: Seq<ReadOutcome>) -> BufferView {
        BufferView { lines: self.lines, has_source: self.has_source, finished: false }.after(reads)
    }
}

/// Attempts to read after others add their lines, unless one of those gave none.
proof fn lemma_lines_read_concat(a: Seq<ReadOutcome>, b: Seq<ReadOutcome>)
    ensures
        lines_read(a + b) == if stops(a) {
            lines_read(a)
        } else {
            lines_read(a) + lines_read(b)
        },
        stops(a + b) == (stops(a) || stops(b)),
    decreases a.len(),
{
    let all = a + b;
    if stops(a) {
        let i = choose|i: int| 0 <= i < a.len() && !(#[trigger] a[i] is Line);
        assert(!(all[i] is Line));
    } else if stops(b) {
        let i = choose|i: int| 0 <= i < b.len() && !(#[trigger] b[i] is Line);
        assert(!(all[a.len() + i] is Line));
    } else if stops(all) {
        let i = choose|i: int| 0 <= i < all.len() && !(#[trigger] all[i] is Line);
        if i < a.len() {
            assert(!(a[i] is Line));
        } else {
            assert(!(b[i - a.len()] is Line));
        }
    }
    if a.len() == 0 {
        assert(all =~= b);
        assert(lines_read(a) + lines_read(b) =~= lines_read(b));
    } else {
        assert(all[0] == a[0]);
        if a[0] is Line {
            let rest = a.skip(1);
            lemma_lines_read_concat(rest, b);
            assert(all.skip(1) =~= rest + b);
            if stops(a) {
                let i = choose|i: int| 0 <= i < a.len() && !(#[trigger] a[i] is Line);
                assert(!(rest[i - 1] is Line));
            } else {
                assert forall|i: int| 0 <= i < rest.len() implies #[trigger] rest[i] is Line by {
                    assert(rest[i] == a[i + 1]);
                }
            }
            assert(lines_read(a) + lines_read(b) =~= seq![lines_read(a)[0]] + (lines_read(rest)
                + lines_read(b)));
        }
    }
}

/// The lines of a buffer do not depend on the pieces that the input is read in.
pub proof fn law_reads_in_pieces(v: BufferView, a: Seq<ReadOutcome>, b: Seq<ReadOutcome>)
    ensures
        v.after(a).after(b) == v.after(a + b),
{
    lemma_lines_read_concat(a, b);
    assert(v.lines + lines_read(a) + lines_read(b) =~= v.lines + (lines_read(a) + lines_read(b)));
}

/// The lines of an input with their endings, one for each attempt to read.
pub open spec fn raw_lines(s: Seq<char>) -> Seq<Seq<char>>
    decreases s.len(),
{
    if s.len() == 0 {
        Seq::empty()
    } else {
        let e = text::line_end(s);
        if 0 <= e < s.len() {
            seq![s.take(e + 1)] + raw_lines(s.skip(e + 1))
        } else {
            seq![s]
        }
    }
}

/// The lines of an input as they are kept.
pub open spec fn input_lines(s: Seq<char>) -> Seq<Seq<char>> {
    raw_lines(s).map_values(|l: Seq<char>| kept_line(l))
}

/// Whether attempts to read are the first ones on an input: each gives the next line,
/// and after the last there is only the end.
pub open spec fn first_reads(reads: Seq<ReadOutcome>, input: Seq<char>) -> bool {
    let raw = raw_lines(input);
    forall|i: int|
        #![trigger reads[i]]
        0 <= i < reads.len() ==> if i < raw.len() {
            reads[i] matches ReadOutcome::Line(s) && s@ == raw[i]
        } else {
            reads[i] is Eof
        }
}

/// Attempts to read, one batch after the other.
pub open spec fn joined_reads(batches: Seq<Seq<ReadOutcome>>) -> Seq<ReadOutcome>
    decreases batches.len(),
{
    if batches.len() == 0 {
        Seq::empty()
    } else {
        joined_reads(batches.drop_last()) + batches.last()
    }
}

impl BufferView {
    /// The buffer after batches of attempts to read.
    pub open spec fn after_all(self, batches: Seq<Seq<ReadOutcome>>) -> BufferView
        decreases batches.len(),
    {
        if batches.len() == 0 {
            self
        } else {
            self.after_all(batches.drop_last()).after(batches.last())
        }
    }
}

proof fn lemma_after_all(v: BufferView, batches: Seq<Seq<ReadOutcome>>)
    ensures
        v.after_all(batches) == v.after(joined_reads(batches)),
    decreases batches.len(),
{
    if batches.len() == 0 {
        let none = Seq::<ReadOutcome>::empty();
        assert(!stops(none));
        assert(v.lines + lines_read(none) =~= v.lines);
        assert(v.after(none) =~= v);
    } else {
        let init = batches.drop_last();
        lemma_after_all(v, init);
        law_reads_in_pieces(v, joined_reads(init), batches.last());
    }
}

/// The lines that are read from an input are its first lines.
proof fn lemma_first_reads(reads: Seq<ReadOutcome>, input: Seq<char>, n: int)
    requires
        first_reads(reads, input),
        0 <= n <= reads.len(),
        n <= raw_lines(input).len(),
    ensures
        lines_read(reads.take(n)) == input_lines(input).take(n),
    decreases n,
{
    let all = input_lines(input);
    if n == 0 {
        assert(reads.take(0).len() == 0);
        assert(lines_read(reads.take(0)) =~= all.take(0));
    } else {
        lemma_first_reads(reads, input, n - 1);
        let a = reads.take(n - 1);
        let last = reads[n - 1];
        let b = seq![last];
        assert(reads.take(n) =~= a + b);
        assert(last is Line);
        assert forall|i: int| 0 <= i < a.len() implies #[trigger] a[i] is Line by {
            assert(a[i] == reads[i]);
        }
        lemma_lines_read_concat(a, b);
        assert(lines_read(b.skip(1)) =~= Seq::empty());
        assert(lines_read(b) =~= seq![kept_line(last->Line_0@)]);
        assert(all.take(n) =~= all.take(n - 1) + seq![all[n - 1]]);
    }
}

/// After any reads, the lines of a buffer are the first lines of the input, and once
/// its end was seen, all of them: what `get_line` gives does not depend on how the
/// lines were read.
pub proof fn law_lines_of_input(batches: Seq<Seq<ReadOutcome>>, input: Seq<char>)
    requires
        first_reads(joined_reads(batches), input),
    ensures
        ({
            let start = BufferView { lines: Seq::empty(), has_source: true, finished: false };
            let v = start.after_all(batches);
            &&& v.lines == input_lines(input).take(v.lines.len() as int)
            &&& v.lines.len() <= input_lines(input).len()
            &&& v.finished ==> v.lines == input_lines(input)
            &&& !v.finished ==> v.lines.len() == joined_reads(batches).len()
        }),
{
    let start = BufferView { lines: Seq::empty(), has_source: true, finished: false };
    let reads = joined_reads(batches);
    lemma_after_all(start, batches);
    lemma_read_from(start, reads, input);
    assert(start.lines + lines_read(reads) =~= lines_read(reads));
}

/// What the first attempts to read on an input add to a buffer.
pub proof fn lemma_read_from(v: BufferView, reads: Seq<ReadOutcome>, input: Seq<char>)
    requires
        v.can_read(),
        first_reads(reads, input),
    ensures
        ({
            let w = v.after(reads);
            let n = lines_read(reads).len() as int;
            &&& w.lines == v.lines + lines_read(reads)
            &&& n <= input_lines(input).len()
            &&& lines_read(reads) == input_lines(input).take(n)
            &&& w.finished ==> lines_read(reads) == input_lines(input)
            &&& !w.finished ==> n == reads.len()
        }),
{
    let count = raw_lines(input).len() as int;
    let all = input_lines(input);
    assert(all.take(count) =~= all);
    if reads.len() <= count {
        let n = reads.len() as int;
        lemma_first_reads(reads, input, n);
        assert(reads.take(n) =~= reads);
        assert forall|i: int| 0 <= i < n implies #[trigger] reads[i] is Line by {}
        assert(!stops(reads));
    } else {
        lemma_first_reads(reads, input, count);
        let a = reads.take(count);
        let b = reads.skip(count);
        assert(reads =~= a + b);
        lemma_lines_read_concat(a, b);
        assert(b[0] == reads[count]);
        assert(!(reads[count] is Line));
        assert(stops(reads));
        assert forall|i: int| 0 <= i < a.len() implies #[trigger] a[i] is Line by {
            assert(a[i] == reads[i]);
        }
        assert(lines_read(b) =~= Seq::empty());
        assert(lines_read(a) + lines_read(b) =~= lines_read(a));
    }
}

/// The lines of an input that has no line over `MAX_LINE_LEN` bytes are kept as they
/// are, without their line feeds and the carriage returns before these.
pub proof fn law_short_lines(input: Seq<char>)
    requires
        forall|i: int|
            0 <= i < text::lines_of(input, false).len() ==> encode_utf8(
                #[trigger] text::lines_of(input, false)[i],
            ).len() <= MAX_LINE_LEN,
    ensures
        input_lines(input) == text::lines_of(input, false),
    decreases input.len(),
{
    let lines = text::lines_of(input, false);
    if input.len() > 0 {
        let e = text::line_end(input);
        text::lemma_line_end(input);
        assert(lines.len() > 0);
        assert(encode_utf8(lines[0]).len() <= MAX_LINE_LEN);
        if e < input.len() {
            let rest = input.skip(e + 1);
            let tail = text::lines_of(rest, false);
            assert(lines =~= seq![lines[0]] + tail);
            assert forall|i: int| 0 <= i < tail.len() implies encode_utf8(
                #[trigger] tail[i],
            ).len() <= MAX_LINE_LEN by {
                assert(tail[i] == lines[i + 1]);
            }
            law_short_lines(rest);
            assert(input.take(e + 1).drop_last() =~= input.take(e));
            assert(raw_lines(input) =~= seq![input.take(e + 1)] + raw_lines(rest));
            assert(input_lines(input) =~= seq![kept_line(input.take(e + 1))] + input_lines(rest));
        } else {
            assert(input.last() != '\n');
            assert(raw_lines(input) =~= seq![input]);
            assert(input_lines(input) =~= seq![kept_line(input)]);
        }
    } else {
        assert(input_lines(input) =~= lines);
    }
}

/// The part of a line that is kept; see `kept_line`.
fn clean_line(line: &str) -> (r: String)
    ensures
        r@ == kept_line(line@),
{
    let chars = text::chars_of(line);
    let n: usize = chars.len();
    let mut end: usize = n;
    if n > 0 && chars[n - 1] == '\n' {
        end = n - 1;
        if end > 0 && chars[end - 1] == '\r' {
            end = end - 1;
        }
    }
    let body = text::string_of(&chars, 0, end);
    assert(body@ =~= without_ending(line@));
    let size: usize = body.as_str().as_bytes().len();
    if size <= MAX_LINE_LEN {
        return body;
    }
    let ghost all = fit(body@, MAX_LINE_LEN as int);
    let mut k: usize = 0;
    let mut left: usize = MAX_LINE_LEN;
    let mut done: bool = false;
    assert(body@.take(0) + fit(body@.skip(0), left as int) =~= all) by {
        assert(body@.skip(0) =~= body@);
    }
    while k < end && !done
        invariant
            k <= end <= n,
            n == chars@.len(),
            body@ == chars@.subrange(0, end as int),
            done ==> body@.take(k as int) =~= all,
            !done ==> body@.take(k as int) + fit(body@.skip(k as int), left as int) =~= all,
        decreases
            end - k,
            (if done {
                0int
            } else {
                1int
            }),
    {
        let size: usize = chars[k].len_utf8();
        assert(body@.skip(k as int)[0] == chars@[k as int]);
        if size > left {
            done = true;
        } else {
            assert(body@.skip(k as int).skip(1) =~= body@.skip(k + 1));
            left = left - size;
            k = k + 1;
        }
    }
    assert(!done ==> body@.skip(k as int).len() == 0);
    let mut out = text::string_of(&chars, 0, k);
    assert(out@ =~= body@.take(k as int));
    out.push_str(" [truncated]");
    out
}

/// The lines of a file or of the standard input, as far as they were read.
pub struct LineBuffer {
    pub lines: Vec<String>,
    pub has_source: bool,
    pub finished: bool,
}

impl View for LineBuffer {
    type V = BufferView;

    open spec fn view(&self) -> BufferView {
        BufferView {
            lines: text::texts(self.lines@),
            has_source: self.has_source,
            finished: self.finished,
        }
    }
}

impl LineBuffer {
    /// A buffer for an input of which nothing was read yet.
    pub fn from_source() -> (r: LineBuffer)
        ensures
            r@ == (BufferView { lines: Seq::empty(), has_source: true, finished: false }),
    {
        let r = LineBuffer { lines: Vec::new(), has_source: true, finished: false };
        assert(r@.lines =~= Seq::empty());
        r
    }

    /// A buffer of given lines, with nothing more to read.
    pub fn from_lines(lines: Vec<String>) -> (r: LineBuffer)
        ensures
            r@ == (BufferView { lines: text::texts(lines@), has_source: false, finished: true }),
    {
        LineBuffer { lines, has_source: false, finished: true }
    }

    /// Check the first 8KB of an input for null bytes. Returns true if binary.
    pub fn check_binary(head: &[u8]) -> (r: bool)
        ensures
            r == is_binary(head@),
    {
        let mut i: usize = 0;
        while i < head.len() && i < BINARY_CHECK_SIZE
            invariant
                i <= head@.len(),
                i <= BINARY_CHECK_SIZE,
                forall|j: int| 0 <= j < i ==> head@[j] != 0,
            decreases head@.len() - i,
        {
            if head[i] == 0 {
                return true;
            }
            i = i + 1;
        }
        false
    }

    /// Push a pre-parsed line into the buffer.
    pub fn push_line(&mut self, line: String)
        ensures
            final(self)@ == (BufferView { lines: old(self)@.lines.push(line@), ..old(self)@ }),
    {
        self.lines.push(line);
        assert(self@.lines =~= old(self)@.lines.push(line@));
    }

    /// Take in more lines. Returns number of new lines read.
    pub fn read_more(&mut self, reads: Vec<ReadOutcome>) -> (r: usize)
        ensures
            final(self)@ == old(self)@.after(reads@),
            r == final(self)@.lines.len() - old(self)@.lines.len(),
            old(self)@.lines.is_prefix_of(final(self)@.lines),
    {
        let before: usize = self.lines.len();
        if self.finished || !self.has_source {
            return 0;
        }
        let ghost all = reads@;
        let n: usize = reads.len();
        let mut i: usize = 0;
        assert(all.skip(0) =~= all);
        while i < n && !self.finished
            invariant
                self.has_source,
                before == old(self).lines@.len(),
                old(self)@.can_read(),
                self.lines@.len() >= before,
                reads@ == all,
                n == all.len(),
                i <= n,
                forall|j: int| 0 <= j < i && !self.finished ==> #[trigger] all[j] is Line,
                !self.finished ==> self@.lines + lines_read(all.skip(i as int)) =~= old(self)@.lines
                    + lines_read(all),
                self.finished ==> {
                    &&& stops(all)
                    &&& self@.lines =~= old(self)@.lines + lines_read(all)
                },
            decreases n - i,
        {
            let ghost held = all.skip(i as int);
            assert(held[0] == all[i as int]);
            assert(held.skip(1) =~= all.skip(i + 1));
            match &reads[i] {
                ReadOutcome::Line(line) => {
                    let ghost had = self@.lines;
                    self.lines.push(clean_line(line));
                    assert(self@.lines =~= had + seq![kept_line(line@)]);
                },
                _ => {
                    self.finished = true;
                },
            }
            i = i + 1;
        }
        assert(self@.lines.take(before as int) =~= old(self)@.lines);
        self.lines.len() - before
    }

    /// How many lines to read next so that line `n` gets available; 0 if it is,
    /// or cannot be.
    pub fn needed_for(&self, n: usize) -> (r: usize)
        ensures
            r == if self@.lines.len() <= n && self@.can_read() {
                LINE_BATCH
            } else {
                0
            },
    {
        if self.lines.len() <= n && !self.finished && self.has_source {
            LINE_BATCH
        } else {
            0
        }
    }

    /// How many lines to read next so that all get available; 0 if they are.
    pub fn needed_for_all(&self) -> (r: usize)
        ensures
            r == if self@.can_read() {
                FULL_BATCH
            } else {
                0
            },
    {
        if !self.finished && self.has_source {
            FULL_BATCH
        } else {
            0
        }
    }

    /// Get line at index, if it was read.
    pub fn get_line(&self, n: usize) -> (r: Option<&str>)
        ensures
            match r {
                Some(s) => n < self@.lines.len() && s@ == self@.lines[n as int],
                None => n >= self@.lines.len(),
            },
    {
        if n < self.lines.len() {
            Some(self.lines[n].as_str())
        } else {
            None
        }
    }

    /// Number of currently cached lines.
    pub fn len(&self) -> (r: usize)
        ensures
            r == self@.lines.len(),
    {
        self.lines.len()
    }

    /// Total line count, or None if not fully read yet.
    pub fn line_count(&self) -> (r: Option<usize>)
        ensures
            match r {
                Some(n) => self@.finished && n == self@.lines.len(),
                None => !self@.finished,
            },
    {
        if self.finished {
            Some(self.lines.len())
        } else {
            None
        }
    }

    /// Whether the end of the input was seen.
    pub fn is_finished(&self) -> (r: bool)
        ensures
            r == self@.finished,
    {
        self.finished
    }

    /// Take in new lines (for follow mode), though the end may have been seen
    /// before. Returns number of new lines.
    pub fn poll_new_lines(&mut self, reads: Vec<ReadOutcome>) -> (r: usize)
        ensures
            final(self)@ == old(self)@.polled(reads@),
            r == final(self)@.lines.len() - old(self)@.lines.len(),
            old(self)@.lines.is_prefix_of(final(self)@.lines),
    {
        self.finished = false;
        self.read_more(reads)
    }
}

/// The lines of a buffer that are shown: all of them, or some.
pub struct ShownLines<'a> {
    pub buffer: &'a LineBuffer,
    pub among: Option<&'a Vec<usize>>,
}

impl<'a> View for ShownLines<'a> {
    type V = BufferView;

    open spec fn view(&self) -> BufferView {
        match self.among {
            Some(among) => self.buffer@.only(among@),
            None => self.buffer@,
        }
    }
}

impl<'a> ShownLines<'a> {
    /// The lines that were chosen exist.
    pub open spec fn wf(&self) -> bool {
        self.among matches Some(among) ==> forall|k: int|
            0 <= k < among@.len() ==> (#[trigger] among@[k]) < self.buffer@.lines.len()
    }

    /// Number of lines.
    pub fn len(&self) -> (r: usize)
        ensures
            r == self@.lines.len(),
    {
        match self.among {
            Some(among) => among.len(),
            None => self.buffer.len(),
        }
    }

    /// Get line at index, if it was read.
    pub fn get_line(&self, n: usize) -> (r: Option<&str>)
        requires
            self.wf(),
        ensures
            match r {
                Some(s) => n < self@.lines.len() && s@ == self@.lines[n as int],
                None => n >= self@.lines.len(),
            },
    {
        match self.among {
            Some(among) => {
                if n < among.len() {
                    self.buffer.get_line(among[n])
                } else {
                    None
                }
            },
            None => self.buffer.get_line(n),
        }
    }

    /// Whether more lines can be read.
    pub fn can_read(&self) -> (r: bool)
        ensures
            r == self@.can_read(),
    {
        self.among.is_none() && self.buffer.has_source && !self.buffer.finished
    }

    /// Whether the end of the lines was seen.
    pub fn is_finished(&self) -> (r: bool)
        ensures
            r == self@.finished,
    {
        self.among.is_some() || self.buffer.finished
    }
}

/// The lines of a text that was read before its lines were asked for: a carriage
/// return at the end of any of them is dropped.
pub open spec fn prepared_lines(text: Seq<char>) -> Seq<Seq<char>> {
    text::lines_of(text, true)
}

/// Prepopulate a LineBuffer with text that was already read for binary detection.
pub fn prepopulate_buffer(lb: &mut LineBuffer, text: &str)
    ensures
        final(lb)@ == (BufferView {
            lines: old(lb)@.lines + prepared_lines(text@),
            ..old(lb)@
        }),
{
    let mut lines = text::split_lines(text, true);
    let ghost all = lines@;
    lb.lines.append(&mut lines);
    assert(lb@.lines =~= old(lb)@.lines + text::texts(all));
}

/// What is kept of a line that is read: its ending goes, whether that is a line feed or
/// a carriage return and a line feed, and no other character, unless the line is longer
/// than 65536 bytes.
pub proof fn law_line_endings(line: Seq<char>)
    requires
        !line.contains('\n'),
        encode_utf8(line).len() <= 65536,
    ensures
        line.len() == 0 || line.last() != '\r' ==> kept_line(line + seq!['\n']) == line,
        kept_line(line + seq!['\r', '\n']) == line,
        kept_line(line) == line,
{
    let a = line + seq!['\n'];
    let b = line + seq!['\r', '\n'];
    assert(a.drop_last() =~= line);
    assert(b.drop_last() =~= line.push('\r'));
    assert(line.push('\r').drop_last() =~= line);
    if line.len() > 0 {
        assert(line.contains(line.last()));
    }
}

/// The sizes that matter: 64KB of a line are kept, and a zero within the first 8KB makes
/// an input binary, wherever it is there; one further on does not.
pub proof fn law_limits(head: Seq<u8>, line: Seq<char>)
    ensures
        is_binary(head) <==> exists|i: int|
            0 <= i < head.len() && i < 8 * 1024 && #[trigger] head[i] == 0,
        encode_utf8(line).len() <= 64 * 1024 && !line.contains('\n') ==> kept_line(line) == line,
{
    if line.len() > 0 {
        assert(line.contains(line.last()));
    }
}

/// What attempts to read do to a buffer: the lines that they gave are added at the end,
/// up to the first attempt that gave none, which is the end. Nothing is read after the
/// end, except in a look for new lines.
pub proof fn law_reads(v: BufferView, reads: Seq<ReadOutcome>, n: int)
    requires
        0 <= n <= reads.len(),
        forall|i: int| 0 <= i < n ==> #[trigger] reads[i] is Line,
        n < reads.len() ==> !(reads[n] is Line),
    ensures
        v.has_source && !v.finished ==> {
            let w = v.after(reads);
            &&& w.lines.len() == v.lines.len() + n
            &&& forall|i: int| 0 <= i < v.lines.len() ==> #[trigger] w.lines[i] == v.lines[i]
            &&& forall|i: int|
                0 <= i < n ==> w.lines[v.lines.len() + i] == kept_line(
                    (#[trigger] reads[i])->Line_0@,
                )
            &&& w.has_source
            &&& w.finished <==> n < reads.len()
        },
        !v.has_source || v.finished ==> v.after(reads) == v,
        v.polled(reads) == (if v.has_source {
            BufferView { finished: false, ..v }.after(reads)
        } else {
            BufferView { finished: false, ..v }
        }),
{
    lemma_lines_up_to(reads, n);
    if n < reads.len() {
        assert(!(reads[n] is Line));
    }
}

proof fn lemma_lines_up_to(reads: Seq<ReadOutcome>, n: int)
    requires
        0 <= n <= reads.len(),
        forall|i: int| 0 <= i < n ==> #[trigger] reads[i] is Line,
        n < reads.len() ==> !(reads[n] is Line),
    ensures
        lines_read(reads).len() == n,
        forall|i: int|
            0 <= i < n ==> #[trigger] lines_read(reads)[i] == kept_line(reads[i]->Line_0@),
    decreases n,
{
    if n > 0 {
        let rest = reads.skip(1);
        assert forall|i: int| 0 <= i < n - 1 implies #[trigger] rest[i] is Line by {
            assert(rest[i] == reads[i + 1]);
        }
        assert(reads[0] is Line);
        lemma_lines_up_to(rest, n - 1);
        assert forall|i: int| 0 <= i < n implies #[trigger] lines_read(reads)[i] == kept_line(
            reads[i]->Line_0@,
        ) by {
            if i > 0 {
                assert(lines_read(reads)[i] == lines_read(rest)[i - 1]);
                assert(rest[i - 1] == reads[i]);
            }
        }
    }
}

/// A line of more than 65536 bytes is cut to as many characters as have so many, and a
/// note says so.
pub proof fn law_long_line(line: Seq<char>)
    requires
        !line.contains('\n'),
        encode_utf8(line).len() > 65536,
    ensures
        ({
            let kept = kept_line(line);
            let n = kept.len() - " [truncated]"@.len();
            &&& n >= 0
            &&& kept.skip(n) == " [truncated]"@
            &&& kept.take(n).is_prefix_of(line)
            &&& encode_utf8(kept.take(n)).len() <= 65536
            &&& encode_utf8(line.take(n + 1)).len() > 65536
        }),
{
    law_kept_line(line);
    if line.len() > 0 {
        assert(line.contains(line.last()));
    }
    assert(without_ending(line) == line);
    let kept = kept_line(line);
    let n = kept.len() - " [truncated]"@.len();
    assert(kept == kept.take(n) + " [truncated]"@);
    assert(kept.skip(n) =~= " [truncated]"@);
}

/// The lines of a text that was read before: as for any text, but a carriage return at
/// its end is dropped.
pub proof fn law_prepared_lines(line: Seq<char>, rest: Seq<char>)
    requires
        !line.contains('\n'),
        line.len() > 0,
        line.last() != '\r',
    ensures
        prepared_lines(Seq::empty()).len() == 0,
        prepared_lines(line) == seq![line],
        prepared_lines(line.push('\r')) == seq![line],
        prepared_lines(line + seq!['\n'] + rest) == seq![line] + prepared_lines(rest),
        prepared_lines(line.push('\r') + seq!['\n'] + rest) == seq![line] + prepared_lines(rest),
{
    let cr = line.push('\r');
    assert(!cr.contains('\n')) by {
        if cr.contains('\n') {
            let i = choose|i: int| 0 <= i < cr.len() && cr[i] == '\n';
            assert(line.contains(line[i]));
        }
    }
    assert(cr.take(cr.len() - 1) =~= line);
    text::law_lines(line, rest, true);
    text::law_lines(cr, rest, true);
}

} // verus!

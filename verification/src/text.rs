//! Text as a sequence of characters, and its UTF-8 encoding.
use vstd::prelude::*;
use vstd::utf8::*;

verus! {

/// `String::push` appends one character.
pub assume_specification[ String::push ](s: &mut String, c: char)
    ensures
        final(s)@ == old(s)@.push(c),
;

/// `String::push_str` appends a string.
pub assume_specification[ String::push_str ](s: &mut String, other: &str)
    ensures
        final(s)@ == old(s)@ + other@,
;

/// The texts that a sequence of strings holds.
pub open spec fn texts(v: Seq<String>) -> Seq<Seq<char>> {
    v.map_values(|s: String| s@)
}

/// Encoding a concatenation concatenates the encodings.
pub proof fn lemma_encode_concat(a: Seq<char>, b: Seq<char>)
    ensures
        encode_utf8(a + b) == encode_utf8(a) + encode_utf8(b),
    decreases a.len(),
{
    if a.len() == 0 {
        assert(a + b =~= b);
        assert(encode_utf8(a) =~= Seq::<u8>::empty());
        assert(encode_utf8(a) + encode_utf8(b) =~= encode_utf8(b));
    } else {
        lemma_encode_concat(a.drop_first(), b);
        assert((a + b).drop_first() =~= a.drop_first() + b);
        assert((a + b)[0] == a[0]);
        assert(encode_utf8(a + b) =~= encode_utf8(a) + encode_utf8(b));
    }
}

/// The encoding of a single character.
pub proof fn lemma_encode_one(c: char)
    ensures
        encode_utf8(seq![c]) == encode_scalar(c as u32),
{
    assert(seq![c].drop_first() =~= Seq::<char>::empty());
    assert(encode_utf8(Seq::<char>::empty()) =~= Seq::<u8>::empty());
    assert(encode_utf8(seq![c]) =~= encode_scalar(c as u32));
}

/// Different texts have different encodings.
pub proof fn lemma_encode_injective(a: Seq<char>, b: Seq<char>)
    requires
        encode_utf8(a) == encode_utf8(b),
    ensures
        a == b,
{
    encode_utf8_decode_utf8(a);
    encode_utf8_decode_utf8(b);
}

/// Where the first line of a text ends: at its line feed, or at the end.
pub open spec fn line_end(s: Seq<char>) -> int
    decreases s.len(),
{
    if s.len() == 0 {
        0
    } else if s[0] == '\n' {
        0
    } else {
        1 + line_end(s.skip(1))
    }
}

/// A line without the carriage return that it may end with.
pub open spec fn without_cr(line: Seq<char>) -> Seq<char> {
    if line.len() > 0 && line.last() == '\r' {
        line.drop_last()
    } else {
        line
    }
}

/// The lines of a text. Each ends with a line feed, which may be left out of the
/// last; a carriage return before the line feed belongs to the ending. One at the
/// end of the text does so only if `bare` says it.
pub open spec fn lines_of(s: Seq<char>, bare: bool) -> Seq<Seq<char>>
    decreases s.len(),
{
    if s.len() == 0 {
        Seq::empty()
    } else {
        let e = line_end(s);
        if 0 <= e < s.len() {
            seq![without_cr(s.take(e))] + lines_of(s.skip(e + 1), bare)
        } else if bare {
            seq![without_cr(s)]
        } else {
            seq![s]
        }
    }
}

/// The first line ends within the text, and holds no line feed.
pub proof fn lemma_line_end(s: Seq<char>)
    ensures
        0 <= line_end(s) <= s.len(),
        line_end(s) < s.len() ==> s[line_end(s)] == '\n',
        forall|i: int| 0 <= i < line_end(s) ==> s[i] != '\n',
    decreases s.len(),
{
    if s.len() > 0 && s[0] != '\n' {
        lemma_line_end(s.skip(1));
        assert forall|i: int| 0 <= i < line_end(s) implies s[i] != '\n' by {
            if i > 0 {
                assert(s.skip(1)[i - 1] == s[i]);
            }
        }
    }
}

/// The first line of a text that begins with a line and its line feed.
pub proof fn lemma_line_end_at(line: Seq<char>, rest: Seq<char>)
    requires
        !line.contains('\n'),
    ensures
        line_end(line + seq!['\n'] + rest) == line.len(),
    decreases line.len(),
{
    let s = line + seq!['\n'] + rest;
    lemma_line_end(s);
    let e = line_end(s);
    if e < line.len() {
        assert(s[e] == line[e]);
        assert(line.contains(line[e]));
    } else if e > line.len() {
        assert(s[line.len() as int] == '\n');
    }
}

/// The lines of two texts follow one another where the first ends with a line feed.
pub proof fn lemma_lines_concat(a: Seq<char>, b: Seq<char>, bare_a: bool, bare: bool)
    requires
        a.len() == 0 || a.last() == '\n',
    ensures
        lines_of(a + b, bare) == lines_of(a, bare_a) + lines_of(b, bare),
    decreases a.len(),
{
    let s = a + b;
    if a.len() == 0 {
        assert(s =~= b);
        assert(lines_of(a, bare_a) + lines_of(b, bare) =~= lines_of(b, bare));
    } else {
        lemma_line_end(a);
        lemma_line_end(s);
        let e = line_end(a);
        assert(a[a.len() - 1] == '\n');
        assert(e < a.len());
        assert(s[e] == '\n');
        assert(line_end(s) == e) by {
            let f = line_end(s);
            if f < e {
                assert(s[f] == a[f]);
            }
        }
        let rest = a.skip(e + 1);
        lemma_lines_concat(rest, b, bare_a, bare);
        assert(s.take(e) =~= a.take(e));
        assert(s.skip(e + 1) =~= rest + b);
        let first = seq![without_cr(a.take(e))];
        assert(first + (lines_of(rest, bare_a) + lines_of(b, bare)) =~= lines_of(a, bare_a)
            + lines_of(b, bare));
    }
}

/// The characters of `s`, in order.
pub fn chars_of(s: &str) -> (r: Vec<char>)
    ensures
        r@ == s@,
{
    let mut out: Vec<char> = Vec::new();
    for c in it: s.chars()
        invariant
            out@ =~= s@.take(it.index() as int),
            it.seq() == s@,
    {
        out.push(c);
    }
    assert(s@.take(s@.len() as int) =~= s@);
    out
}

/// The string made of `chars[from..to]`.
pub fn string_of(chars: &[char], from: usize, to: usize) -> (r: String)
    requires
        from <= to <= chars@.len(),
    ensures
        r@ == chars@.subrange(from as int, to as int),
{
    let mut out = String::new();
    let mut i: usize = from;
    while i < to
        invariant
            from <= i <= to <= chars@.len(),
            out@ =~= chars@.subrange(from as int, i as int),
        decreases to - i,
    {
        out.push(chars[i]);
        i = i + 1;
    }
    out
}

/// Whether two strings hold the same text.
pub fn same_text(a: &str, b: &str) -> (r: bool)
    ensures
        r == (a@ == b@),
{
    let x = a.as_bytes();
    let y = b.as_bytes();
    if x.len() != y.len() {
        return false;
    }
    let mut i: usize = 0;
    while i < x.len()
        invariant
            x@ == encode_utf8(a@),
            y@ == encode_utf8(b@),
            x@.len() == y@.len(),
            i <= x@.len(),
            forall|j: int| 0 <= j < i ==> x@[j] == y@[j],
        decreases x@.len() - i,
    {
        if x[i] != y[i] {
            return false;
        }
        i = i + 1;
    }
    proof {
        assert(x@ =~= y@);
        lemma_encode_injective(a@, b@);
    }
    true
}

/// The lines of a text; see `lines_of`.
pub fn split_lines(s: &str, bare: bool) -> (r: Vec<String>)
    ensures
        texts(r@) == lines_of(s@, bare),
{
    let chars = chars_of(s);
    let n: usize = chars.len();
    let mut out: Vec<String> = Vec::new();
    let mut start: usize = 0;
    let mut i: usize = 0;
    assert(s@.skip(0) =~= s@);
    while i < n
        invariant
            chars@ == s@,
            n == chars@.len(),
            start <= i <= n,
            forall|j: int| start <= j < i ==> s@[j] != '\n',
            texts(out@) + lines_of(s@.skip(start as int), bare) =~= lines_of(s@, bare),
        decreases n - i,
    {
        if chars[i] == '\n' {
            proof {
                let rest = s@.skip(start as int);
                lemma_line_end(rest);
                let e = line_end(rest);
                if e < i - start {
                    assert(rest[e] == s@[start + e]);
                } else {
                    assert(rest[i - start] == '\n');
                }
                assert(rest.take(e) =~= s@.subrange(start as int, i as int));
                assert(rest.skip(e + 1) =~= s@.skip(i + 1));
            }
            let end: usize = if start < i && chars[i - 1] == '\r' {
                i - 1
            } else {
                i
            };
            let line = string_of(&chars, start, end);
            assert(line@ =~= without_cr(s@.subrange(start as int, i as int)));
            out.push(line);
            start = i + 1;
        }
        i = i + 1;
    }
    if start < n {
        proof {
            let rest = s@.skip(start as int);
            lemma_line_end(rest);
            let e = line_end(rest);
            if e < rest.len() {
                assert(rest[e] == s@[start + e]);
            }
            assert(rest =~= s@.subrange(start as int, n as int));
        }
        let end: usize = if bare && chars[n - 1] == '\r' {
            n - 1
        } else {
            n
        };
        let line = string_of(&chars, start, end);
        assert(line@ =~= if bare {
            without_cr(s@.skip(start as int))
        } else {
            s@.skip(start as int)
        });
        out.push(line);
    }
    assert(texts(out@) =~= lines_of(s@, bare));
    out
}

/// Append the UTF-8 bytes of `s` to `buf`.
pub fn push_text(buf: &mut Vec<u8>, s: &str)
    ensures
        final(buf)@ == old(buf)@ + encode_utf8(s@),
{
    buf.extend_from_slice(s.as_bytes());
    assert(buf@ =~= old(buf)@ + encode_utf8(s@));
}

/// The lines of a text: up to each line feed there is one, without the carriage return
/// before that; what comes after the last line feed is one too, unless it is nothing.
pub proof fn law_lines(line: Seq<char>, rest: Seq<char>, bare: bool)
    requires
        !line.contains('\n'),
    ensures
        lines_of(Seq::empty(), bare).len() == 0,
        lines_of(line + seq!['\n'] + rest, bare) == seq![
            if line.len() > 0 && line.last() == '\r' {
                line.take(line.len() - 1)
            } else {
                line
            },
        ] + lines_of(rest, bare),
        line.len() > 0 ==> lines_of(line, bare) == seq![
            if bare && line.last() == '\r' {
                line.take(line.len() - 1)
            } else {
                line
            },
        ],
{
    let s = line + seq!['\n'] + rest;
    lemma_line_end_at(line, rest);
    assert(s.take(line.len() as int) =~= line);
    assert(s.skip(line.len() as int + 1) =~= rest);
    assert(line.len() > 0 ==> line.drop_last() =~= line.take(line.len() - 1));
    lemma_line_end(line);
    if line_end(line) < line.len() {
        assert(line.contains(line[line_end(line)]));
    }
}

} // verus!

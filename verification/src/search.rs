//! Searching lines for a pattern.
use crate::ansi;
use crate::bmh;
use crate::buffer;
use crate::regexp;
use crate::text;
use vstd::prelude::*;
use vstd::utf8::*;

verus! {

/// What `char::is_uppercase` returns for a character outside ASCII: whether it
/// has the Unicode property `Uppercase`.
pub uninterp spec fn is_uppercase_letter(c: char) -> bool;

/// `char::is_uppercase` tells whether a character has the Unicode property
/// `Uppercase`. In ASCII those are the letters `A` to `Z`.
pub assume_specification[ char::is_uppercase ](c: char) -> (r: bool)
    ensures
        r == if c <= '\x7f' {
            'A' <= c <= 'Z'
        } else {
            is_uppercase_letter(c)
        },
;

/// Whether a character is an uppercase letter.
pub open spec fn is_upper(c: char) -> bool {
    if c <= '\x7f' {
        'A' <= c <= 'Z'
    } else {
        is_uppercase_letter(c)
    }
}

/// Smart case: a pattern without uppercase letters ignores the case of ASCII
/// letters. The case of other letters always counts.
pub open spec fn ignores_case(pattern: Seq<char>) -> bool {
    forall|i: int| 0 <= i < pattern.len() ==> !is_upper(#[trigger] pattern[i])
}

/// Whether a character has a meaning of its own in regular expressions.
pub open spec fn is_meta(c: char) -> bool {
    c == '\\' || c == '.' || c == '^' || c == '$' || c == '*' || c == '+' || c == '?' || c == '('
        || c == ')' || c == '[' || c == ']' || c == '{' || c == '}' || c == '|'
}

/// Whether a pattern stands for itself only.
pub open spec fn literal(pattern: Seq<char>) -> bool {
    forall|i: int| 0 <= i < pattern.len() ==> !is_meta(#[trigger] pattern[i])
}

/// The bytes that a literal pattern is looked for as.
pub open spec fn needle(pattern: Seq<char>) -> Seq<u8> {
    bmh::fold_all(encode_utf8(pattern), ignores_case(pattern))
}

/// The regular expression that a pattern is compiled to.
pub open spec fn expression(pattern: Seq<char>) -> Seq<char> {
    if ignores_case(pattern) {
        "(?i)"@ + pattern
    } else {
        pattern
    }
}

/// Whether a pattern matches somewhere in a text.
pub open spec fn text_matches(pattern: Seq<char>, text: Seq<char>) -> bool {
    if literal(pattern) {
        bmh::first_from(needle(pattern), encode_utf8(text), ignores_case(pattern), 0) is Some
    } else {
        regexp::found(expression(pattern), text)
    }
}

/// Whether a pattern matches what is visible of a line.
pub open spec fn line_matches(pattern: Seq<char>, line: Seq<char>) -> bool {
    text_matches(pattern, ansi::visible_text(line))
}

/// The ranges of bytes of a text that a pattern matches, from left to right and
/// without overlap.
pub open spec fn match_ranges(pattern: Seq<char>, text: Seq<char>) -> Seq<(usize, usize)> {
    if literal(pattern) {
        bmh::all_from(needle(pattern), encode_utf8(text), ignores_case(pattern), 0)
    } else {
        regexp::found_ranges(expression(pattern), text)
    }
}

/// Bytes that are compared as equal begin characters of equal length.
proof fn lemma_same_shape(a: Seq<u8>, b: Seq<u8>, case_insensitive: bool)
    requires
        valid_utf8(a),
        valid_utf8(b),
        a.len() <= b.len(),
        forall|j: int|
            0 <= j < a.len() ==> bmh::fold(#[trigger] b[j], case_insensitive) == bmh::fold(
                a[j],
                case_insensitive,
            ),
    ensures
        is_char_boundary(b, a.len() as int),
    decreases a.len(),
{
    if a.len() == 0 {
        is_char_boundary_start_end_of_seq(b);
    } else {
        assert(bmh::fold(b[0], case_insensitive) == bmh::fold(a[0], case_insensitive));
        let n = length_of_first_scalar(a);
        assert(length_of_first_scalar(b) == n);
        let a1 = pop_first_scalar(a);
        let b1 = pop_first_scalar(b);
        assert forall|j: int| 0 <= j < a1.len() implies bmh::fold(
            #[trigger] b1[j],
            case_insensitive,
        ) == bmh::fold(a1[j], case_insensitive) by {
            assert(b1[j] == b[j + n]);
            assert(a1[j] == a[j + n]);
        }
        lemma_same_shape(a1, b1, case_insensitive);
    }
}

/// A literal pattern occurs in a text only between characters.
proof fn lemma_occurrence_bounds(
    pattern: Seq<char>,
    text: Seq<char>,
    case_insensitive: bool,
    i: int,
)
    requires
        pattern.len() > 0,
        bmh::occurs_at(
            bmh::fold_all(encode_utf8(pattern), case_insensitive),
            encode_utf8(text),
            case_insensitive,
            i,
        ),
    ensures
        is_char_boundary(encode_utf8(text), i),
        is_char_boundary(encode_utf8(text), i + encode_utf8(pattern).len()),
{
    let a = encode_utf8(pattern);
    let b = encode_utf8(text);
    let folded = bmh::fold_all(a, case_insensitive);
    encode_utf8_first_scalar(pattern);
    encode_utf8_valid_utf8(pattern);
    encode_utf8_valid_utf8(text);
    assert(bmh::fold(b[i + 0], case_insensitive) == folded[0]);
    is_char_boundary_iff_not_is_continuation_byte(b, i);
    valid_utf8_split(b, i);
    let rest = b.subrange(i, b.len() as int);
    assert forall|j: int| 0 <= j < a.len() implies bmh::fold(#[trigger] rest[j], case_insensitive)
        == bmh::fold(a[j], case_insensitive) by {
        assert(rest[j] == b[i + j]);
    }
    lemma_same_shape(a, rest, case_insensitive);
    if i + a.len() < b.len() {
        is_char_boundary_iff_not_is_continuation_byte(rest, a.len() as int);
        is_char_boundary_iff_not_is_continuation_byte(b, i + a.len());
    } else {
        is_char_boundary_start_end_of_seq(b);
    }
}

/// A pattern matches a text exactly if it matches some range of it, and the
/// ranges follow one another and begin and end between characters.
proof fn lemma_literal_ranges(pattern: Seq<char>, text: Seq<char>)
    requires
        pattern.len() > 0,
        literal(pattern),
        encode_utf8(text).len() <= usize::MAX,
    ensures
        match_ranges(pattern, text).len() > 0 <==> text_matches(pattern, text),
        regexp::are_ranges(match_ranges(pattern, text), text),
{
    let n = needle(pattern);
    let h = encode_utf8(text);
    let ci = ignores_case(pattern);
    encode_utf8_first_scalar(pattern);
    bmh::law_first_from(n, h, ci, 0);
    bmh::law_all_from(n, h, ci, 0);
    let ranges = match_ranges(pattern, text);
    assert forall|i: int| #![trigger ranges[i]] 0 <= i < ranges.len() implies {
        &&& ranges[i].0 <= ranges[i].1 <= h.len()
        &&& is_char_boundary(h, ranges[i].0 as int)
        &&& is_char_boundary(h, ranges[i].1 as int)
    } by {
        lemma_occurrence_bounds(pattern, text, ci, ranges[i].0 as int);
    }
}

/// Returns true if the pattern contains no regex metacharacters.
pub fn is_literal(pattern: &str) -> (r: bool)
    ensures
        r == literal(pattern@),
{
    let chars = text::chars_of(pattern);
    let mut i: usize = 0;
    while i < chars.len()
        invariant
            chars@ == pattern@,
            i <= chars@.len(),
            forall|j: int| 0 <= j < i ==> !is_meta(#[trigger] pattern@[j]),
        decreases chars@.len() - i,
    {
        let c: char = chars[i];
        if c == '\\' || c == '.' || c == '^' || c == '$' || c == '*' || c == '+' || c == '?' || c
            == '(' || c == ')' || c == '[' || c == ']' || c == '{' || c == '}' || c == '|' {
            assert(is_meta(pattern@[i as int]));
            return false;
        }
        i = i + 1;
    }
    true
}

/// Whether a pattern has no uppercase letters.
fn has_no_uppercase(pattern: &str) -> (r: bool)
    ensures
        r == ignores_case(pattern@),
{
    let chars = text::chars_of(pattern);
    let mut i: usize = 0;
    while i < chars.len()
        invariant
            chars@ == pattern@,
            i <= chars@.len(),
            forall|j: int| 0 <= j < i ==> !is_upper(#[trigger] pattern@[j]),
        decreases chars@.len() - i,
    {
        if chars[i].is_uppercase() {
            assert(is_upper(pattern@[i as int]));
            return false;
        }
        i = i + 1;
    }
    true
}

/// The regular expression that a pattern is compiled to.
pub fn expression_text(pattern: &str) -> (r: String)
    ensures
        r@ == expression(pattern@),
{
    let mut source = String::new();
    if has_no_uppercase(pattern) {
        source.push_str("(?i)");
    }
    source.push_str(pattern);
    assert(source@ =~= expression(pattern@));
    source
}

/// Whether a line holds the character that starts escape sequences.
fn has_escape(line: &str) -> (r: bool)
    ensures
        r == line@.contains(ansi::ESC),
{
    let chars = text::chars_of(line);
    let mut i: usize = 0;
    while i < chars.len()
        invariant
            chars@ == line@,
            i <= chars@.len(),
            forall|j: int| 0 <= j < i ==> line@[j] != ansi::ESC,
        decreases chars@.len() - i,
    {
        if chars[i] == ansi::ESC {
            assert(line@[i as int] == ansi::ESC);
            return true;
        }
        i = i + 1;
    }
    false
}

/// The line that a search without a match has to wait for; see `awaited_line`.
pub fn line_to_read(lines: &buffer::ShownLines, from: usize, forward: bool) -> (r: Option<usize>)
    ensures
        match r {
            Some(n) => awaited_line(lines@, from as int, forward) == Some(n as int),
            None => awaited_line(lines@, from as int, forward) is None,
        },
{
    let n: usize = lines.len();
    if !lines.can_read() {
        None
    } else if forward {
        if from < n {
            Some(n)
        } else {
            Some(from)
        }
    } else if from > n {
        Some(from - 1)
    } else {
        None
    }
}

/// How a pattern is looked for.
pub enum Matcher {
    Literal(Box<bmh::Bmh>),
    Regex(regexp::Compiled),
}

/// A search for a pattern.
pub struct Search {
    pub pattern: String,
    pub matcher: Matcher,
}

impl View for Search {
    type V = Seq<char>;

    /// The pattern.
    open spec fn view(&self) -> Seq<char> {
        self.pattern@
    }
}

impl Search {
    /// The pattern is not empty, and the matcher looks for it.
    pub open spec fn wf(&self) -> bool {
        let p = self.pattern@;
        &&& p.len() > 0
        &&& match self.matcher {
            Matcher::Literal(b) => {
                &&& literal(p)
                &&& b.wf()
                &&& b.needle@ == needle(p)
                &&& b.case_insensitive == ignores_case(p)
            },
            Matcher::Regex(c) => !literal(p) && c@ == expression(p),
        }
    }

    /// Create a new search. Smart-case: if the pattern has uppercase it is
    /// case-sensitive, otherwise case-insensitive for ASCII letters.
    ///
    /// Whether a pattern that is not literal is accepted is up to
    /// `regexp::Compiled::new`, which gets its `expression_text`; `from_regex` says
    /// what becomes of the outcome.
    pub fn new(pattern: &str) -> (r: Result<Search, String>)
        ensures
            pattern@.len() == 0 ==> (r matches Err(e) && e@ == "Empty pattern"@),
            pattern@.len() > 0 && literal(pattern@) ==> r is Ok,
            match r {
                Ok(s) => s@ == pattern@ && s.wf(),
                Err(e) => pattern@.len() > 0 ==> exists|why: Seq<char>|
                    e@ == #[trigger] invalid_regex(why) && regexp::refuses(
                        expression(pattern@),
                        why,
                    ),
            },
    {
        if pattern.is_empty() {
            return Err("Empty pattern".to_owned());
        }
        if is_literal(pattern) {
            let bytes = pattern.as_bytes();
            let bmh = bmh::Bmh::new(bytes, has_no_uppercase(pattern));
            return Ok(
                Search { pattern: pattern.to_owned(), matcher: Matcher::Literal(Box::new(bmh)) },
            );
        }
        let source = expression_text(pattern);
        Search::from_regex(pattern, regexp::Compiled::new(&source))
    }

    /// The search for a pattern that is not literal, from what compiling it gave.
    pub fn from_regex(pattern: &str, compiled: Result<regexp::Compiled, String>) -> (r: Result<
        Search,
        String,
    >)
        requires
            pattern@.len() > 0,
            !literal(pattern@),
            compiled matches Ok(c) ==> c@ == expression(pattern@),
        ensures
            match compiled {
                Ok(c) => r matches Ok(s) && s@ == pattern@ && s.wf() && s.matcher
                    == Matcher::Regex(c),
                Err(why) => r matches Err(e) && e@ == invalid_regex(why@),
            },
    {
        match compiled {
            Ok(c) => Ok(Search { pattern: pattern.to_owned(), matcher: Matcher::Regex(c) }),
            Err(why) => {
                let mut message = "Invalid regex: ".to_owned();
                message.push_str(&why);
                Err(message)
            },
        }
    }

    /// Check if a line matches (strips escape sequences first).
    pub fn is_match(&self, line: &str) -> (r: bool)
        requires
            self.wf(),
        ensures
            r == line_matches(self@, line@),
    {
        if !has_escape(line) {
            proof {
                ansi::law_plain_text_is_visible(line@);
            }
            return self.is_match_raw(line);
        }
        let stripped = ansi::strip_ansi(line);
        self.is_match_raw(&stripped)
    }

    /// Check if a text without escape sequences matches.
    pub fn is_match_raw(&self, text: &str) -> (r: bool)
        requires
            self.wf(),
        ensures
            r == text_matches(self@, text@),
    {
        match &self.matcher {
            Matcher::Literal(bmh) => bmh.is_match(text.as_bytes()),
            Matcher::Regex(regex) => regex.is_match(text),
        }
    }

    /// Find all match byte ranges in a line without its escape sequences.
    pub fn find_matches(&self, line: &str) -> (r: Vec<(usize, usize)>)
        requires
            self.wf(),
        ensures
            r@ == match_ranges(self@, ansi::visible_text(line@)),
            r@.len() > 0 <==> line_matches(self@, line@),
            regexp::are_ranges(r@, ansi::visible_text(line@)),
    {
        let stripped = ansi::strip_ansi(line);
        self.find_matches_stripped(&stripped)
    }

    /// Find next matching line from `from_line` among the lines that were read.
    /// A backward search begins with the line before.
    pub fn find_next_line(
        &self,
        buffer: &buffer::LineBuffer,
        from_line: usize,
        forward: bool,
    ) -> (r: Option<usize>)
        requires
            self.wf(),
        ensures
            match r {
                Some(i) => match_from(self@, buffer@.lines, from_line as int, forward) == Some(
                    i as int,
                ),
                None => match_from(self@, buffer@.lines, from_line as int, forward) is None,
            },
    {
        self.find_next_shown(&buffer::ShownLines { buffer, among: None }, from_line, forward)
    }

    /// Whether a line matches, if there is one.
    fn is_match_at(&self, lines: &buffer::ShownLines, n: usize) -> (r: bool)
        requires
            self.wf(),
            lines.wf(),
            n < lines@.lines.len(),
        ensures
            r == line_matches(self@, lines@.lines[n as int]),
    {
        match lines.get_line(n) {
            Some(s) => self.is_match(s),
            None => false,
        }
    }

    /// Find next matching line from number `from` among the lines that are shown.
    /// A backward search begins with the line before.
    pub fn find_next_shown(
        &self,
        lines: &buffer::ShownLines,
        from: usize,
        forward: bool,
    ) -> (r: Option<usize>)
        requires
            self.wf(),
            lines.wf(),
        ensures
            match r {
                Some(i) => match_from(self@, lines@.lines, from as int, forward) == Some(i as int),
                None => match_from(self@, lines@.lines, from as int, forward) is None,
            },
    {
        let n: usize = lines.len();
        if forward {
            let mut i: usize = from;
            while i < n
                invariant
                    self.wf(),
                    lines.wf(),
                    forward,
                    n == lines@.lines.len(),
                    from <= i,
                    next_match(self@, lines@.lines, from as int) == next_match(
                        self@,
                        lines@.lines,
                        i as int,
                    ),
                decreases n - i,
            {
                if self.is_match_at(lines, i) {
                    return Some(i);
                }
                i = i + 1;
            }
            return None;
        }
        if from > n {
            return None;
        }
        let mut i: usize = from;
        while i > 0
            invariant
                self.wf(),
                lines.wf(),
                !forward,
                n == lines@.lines.len(),
                i <= from <= n,
                prev_match(self@, lines@.lines, from as int) == prev_match(
                    self@,
                    lines@.lines,
                    i as int,
                ),
            decreases i,
        {
            if self.is_match_at(lines, i - 1) {
                return Some(i - 1);
            }
            i = i - 1;
        }
        None
    }

    /// Find all match byte ranges in already-stripped text.
    pub fn find_matches_stripped(&self, stripped: &str) -> (r: Vec<(usize, usize)>)
        requires
            self.wf(),
        ensures
            r@ == match_ranges(self@, stripped@),
            r@.len() > 0 <==> text_matches(self@, stripped@),
            regexp::are_ranges(r@, stripped@),
    {
        match &self.matcher {
            Matcher::Literal(bmh) => {
                let bytes = stripped.as_bytes();
                let len: usize = bytes.len();
                proof {
                    assert(len == encode_utf8(stripped@).len());
                    lemma_literal_ranges(self@, stripped@);
                }
                bmh.find_all(bytes)
            },
            Matcher::Regex(regex) => regex.find_all(stripped),
        }
    }
}

/// A character in lower case, if it is an ASCII capital.
pub open spec fn lower_char(c: char) -> char {
    if 'A' <= c <= 'Z' {
        (c as u32 + 32) as char
    } else {
        c
    }
}

/// A text as it is compared.
pub open spec fn folded(s: Seq<char>, case_insensitive: bool) -> Seq<char> {
    if case_insensitive {
        s.map_values(|c: char| lower_char(c))
    } else {
        s
    }
}

/// Whether `part` occurs in `s`.
pub open spec fn has_part(s: Seq<char>, part: Seq<char>) -> bool {
    exists|k: int|
        0 <= k && k + part.len() <= s.len() && #[trigger] s.subrange(k, k + part.len()) == part
}

/// The bytes of a character that is compared are compared in the same way.
proof fn lemma_fold_scalar(c: char)
    ensures
        encode_scalar(lower_char(c) as u32) == bmh::fold_all(encode_scalar(c as u32), true),
{
    let v = c as u32;
    let l = lower_char(c) as u32;
    char_is_scalar(c);
    char_is_scalar(lower_char(c));
    if v <= 0x7f {
        assert(v <= 0x7f ==> (v & 0x7f) as u8 == v) by (bit_vector);
        assert(l <= 0x7f ==> (l & 0x7f) as u8 == l) by (bit_vector);
        assert(encode_scalar(l) =~= bmh::fold_all(encode_scalar(v), true));
    } else {
        let bytes = encode_scalar(v);
        assert(0xc0u8 | ((v >> 6) & 0x1f) as u8 >= 0x80) by (bit_vector);
        assert(0xe0u8 | ((v >> 12) & 0x0f) as u8 >= 0x80) by (bit_vector);
        assert(0xf0u8 | ((v >> 18) & 0x7) as u8 >= 0x80) by (bit_vector);
        assert(0x80u8 | (v & 0x3f) as u8 >= 0x80) by (bit_vector);
        assert(0x80u8 | ((v >> 6) & 0x3f) as u8 >= 0x80) by (bit_vector);
        assert(0x80u8 | ((v >> 12) & 0x3f) as u8 >= 0x80) by (bit_vector);
        assert(bmh::fold_all(bytes, true) =~= bytes);
    }
}

/// A text and its bytes are compared in the same way.
proof fn lemma_fold_text(s: Seq<char>, case_insensitive: bool)
    ensures
        encode_utf8(folded(s, case_insensitive)) == bmh::fold_all(
            encode_utf8(s),
            case_insensitive,
        ),
    decreases s.len(),
{
    let f = folded(s, case_insensitive);
    let bytes = encode_utf8(s);
    if !case_insensitive {
        assert(bmh::fold_all(bytes, false) =~= bytes);
    } else if s.len() == 0 {
        assert(f =~= s);
        assert(bmh::fold_all(bytes, true) =~= bytes);
    } else {
        let rest = s.drop_first();
        lemma_fold_text(rest, true);
        lemma_fold_scalar(s[0]);
        assert(f.drop_first() =~= folded(rest, true));
        assert(bmh::fold_all(bytes, true) =~= bmh::fold_all(encode_scalar(s[0] as u32), true)
            + bmh::fold_all(encode_utf8(rest), true));
    }
}

/// Bytes of a text that encode another one between characters are part of it.
proof fn lemma_part_at(s: Seq<char>, part: Seq<char>, i: int)
    requires
        is_char_boundary(encode_utf8(s), i),
        is_char_boundary(encode_utf8(s), i + encode_utf8(part).len()),
        0 <= i,
        i + encode_utf8(part).len() <= encode_utf8(s).len(),
        encode_utf8(s).subrange(i, i + encode_utf8(part).len()) == encode_utf8(part),
    ensures
        has_part(s, part),
{
    let bytes = encode_utf8(s);
    let n = encode_utf8(part).len() as int;
    encode_utf8_valid_utf8(s);
    encode_utf8_valid_utf8(part);
    valid_utf8_split(bytes, i);
    valid_utf8_split(bytes, i + n);
    let a = decode_utf8(bytes.subrange(0, i));
    let b = decode_utf8(bytes.subrange(i + n, bytes.len() as int));
    decode_utf8_encode_utf8(bytes.subrange(0, i));
    decode_utf8_encode_utf8(bytes.subrange(i + n, bytes.len() as int));
    text::lemma_encode_concat(a, part);
    text::lemma_encode_concat(a + part, b);
    assert(encode_utf8(a + part + b) =~= bytes);
    text::lemma_encode_injective(a + part + b, s);
    let k = a.len() as int;
    assert(s.subrange(k, k + part.len()) =~= part);
}

/// A literal pattern matches exactly the texts that it is a part of. Without an
/// uppercase letter in it, the case of ASCII letters makes no difference.
pub proof fn law_literal_match(pattern: Seq<char>, text: Seq<char>)
    requires
        pattern.len() > 0,
        literal(pattern),
        encode_utf8(text).len() <= usize::MAX,
    ensures
        text_matches(pattern, text) <==> has_part(
            folded(text, ignores_case(pattern)),
            folded(pattern, ignores_case(pattern)),
        ),
{
    let ci = ignores_case(pattern);
    let n = needle(pattern);
    let bytes = encode_utf8(text);
    let s = folded(text, ci);
    let p = folded(pattern, ci);
    lemma_fold_text(text, ci);
    lemma_fold_text(pattern, ci);
    encode_utf8_first_scalar(pattern);
    bmh::law_first_from(n, bytes, ci, 0);
    let fs = encode_utf8(s);
    assert(encode_utf8(p) == n);
    assert(fs.len() == bytes.len());
    if text_matches(pattern, text) {
        let i = bmh::first_from(n, bytes, ci, 0)->0 as int;
        assert(bmh::occurs_at(n, bytes, ci, i));
        lemma_occurrence_bounds(pattern, text, ci, i);
        assert forall|j: int| 0 <= j < n.len() implies fs[i + j] == n[j] by {
            assert(bmh::fold(bytes[i + j], ci) == n[j]);
        }
        assert(fs.subrange(i, i + n.len()) =~= n);
        lemma_same_bounds(text, ci, i);
        lemma_same_bounds(text, ci, i + n.len());
        lemma_part_at(s, p, i);
    }
    if has_part(s, p) {
        let k = choose|k: int|
            0 <= k && k + p.len() <= s.len() && #[trigger] s.subrange(k, k + p.len()) == p;
        let a = s.take(k);
        let b = s.skip(k + p.len());
        assert(s =~= a + p + b);
        text::lemma_encode_concat(a, p);
        text::lemma_encode_concat(a + p, b);
        let i = encode_utf8(a).len() as int;
        assert forall|j: int| 0 <= j < n.len() implies bmh::fold(#[trigger] bytes[i + j], ci)
            == n[j] by {
            assert(fs[i + j] == n[j]);
            assert(fs[i + j] == bmh::fold(bytes[i + j], ci));
        }
        assert(bmh::occurs_at(n, bytes, ci, i));
    }
}

/// Folding moves no character boundary.
proof fn lemma_same_bounds(text: Seq<char>, case_insensitive: bool, i: int)
    requires
        is_char_boundary(encode_utf8(text), i),
        0 <= i <= encode_utf8(text).len(),
    ensures
        is_char_boundary(encode_utf8(folded(text, case_insensitive)), i),
{
    let bytes = encode_utf8(text);
    let s = folded(text, case_insensitive);
    let fs = encode_utf8(s);
    lemma_fold_text(text, case_insensitive);
    encode_utf8_valid_utf8(text);
    encode_utf8_valid_utf8(s);
    if i < bytes.len() {
        is_char_boundary_iff_not_is_continuation_byte(bytes, i);
        is_char_boundary_iff_not_is_continuation_byte(fs, i);
        assert(fs[i] == bmh::fold(bytes[i], case_insensitive));
    } else {
        is_char_boundary_start_end_of_seq(fs);
    }
}

/// The first line at or after `from` that a pattern matches.
pub open spec fn next_match(pattern: Seq<char>, lines: Seq<Seq<char>>, from: int) -> Option<int>
    decreases lines.len() - from,
{
    if from < 0 || from >= lines.len() {
        None
    } else if line_matches(pattern, lines[from]) {
        Some(from)
    } else {
        next_match(pattern, lines, from + 1)
    }
}

/// The last line before `from` that a pattern matches; none if the line just
/// before it is not there.
pub open spec fn prev_match(pattern: Seq<char>, lines: Seq<Seq<char>>, from: int) -> Option<int>
    decreases from,
{
    if from <= 0 || from > lines.len() {
        None
    } else if line_matches(pattern, lines[from - 1]) {
        Some(from - 1)
    } else {
        prev_match(pattern, lines, from - 1)
    }
}

/// Where a search from line `from` finds its match.
pub open spec fn match_from(
    pattern: Seq<char>,
    lines: Seq<Seq<char>>,
    from: int,
    forward: bool,
) -> Option<int> {
    if forward {
        next_match(pattern, lines, from)
    } else {
        prev_match(pattern, lines, from)
    }
}

/// The line that has to be read before a search from line `from` can go on, when
/// there is no match in the lines that were read.
pub open spec fn awaited_line(b: buffer::BufferView, from: int, forward: bool) -> Option<int> {
    if !b.can_read() {
        None
    } else if forward {
        if from < b.lines.len() {
            Some(b.lines.len() as int)
        } else {
            Some(from)
        }
    } else if from - 1 >= b.lines.len() {
        Some(from - 1)
    } else {
        None
    }
}

/// `next_match` is the first match, and there is none only if no line matches.
pub proof fn law_next_match(pattern: Seq<char>, lines: Seq<Seq<char>>, from: int)
    requires
        0 <= from,
    ensures
        match next_match(pattern, lines, from) {
            Some(i) => {
                &&& from <= i < lines.len()
                &&& line_matches(pattern, lines[i])
                &&& forall|j: int| from <= j < i ==> !line_matches(pattern, #[trigger] lines[j])
            },
            None => forall|j: int|
                from <= j < lines.len() ==> !line_matches(pattern, #[trigger] lines[j]),
        },
    decreases lines.len() - from,
{
    if from < lines.len() && !line_matches(pattern, lines[from]) {
        law_next_match(pattern, lines, from + 1);
    }
}

/// `prev_match` is the last match before a line, and there is none only if no
/// line before it matches.
pub proof fn law_prev_match(pattern: Seq<char>, lines: Seq<Seq<char>>, from: int)
    requires
        0 <= from <= lines.len(),
    ensures
        match prev_match(pattern, lines, from) {
            Some(i) => {
                &&& 0 <= i < from
                &&& line_matches(pattern, lines[i])
                &&& forall|j: int| i < j < from ==> !line_matches(pattern, #[trigger] lines[j])
            },
            None => forall|j: int|
                0 <= j < from ==> !line_matches(pattern, #[trigger] lines[j]),
        },
    decreases from,
{
    if from > 0 && !line_matches(pattern, lines[from - 1]) {
        law_prev_match(pattern, lines, from - 1);
    }
}

/// A forward search that goes on after more lines were read, from where it
/// stopped, finds what a search of all of them would.
pub proof fn law_search_resumes(
    pattern: Seq<char>,
    lines: Seq<Seq<char>>,
    more: Seq<Seq<char>>,
    from: int,
)
    requires
        0 <= from,
    ensures
        next_match(pattern, lines + more, from) == match next_match(pattern, lines, from) {
            Some(i) => Some(i),
            None => next_match(
                pattern,
                lines + more,
                if from < lines.len() {
                    lines.len() as int
                } else {
                    from
                },
            ),
        },
    decreases lines.len() - from,
{
    if from < lines.len() {
        assert((lines + more)[from] == lines[from]);
        if !line_matches(pattern, lines[from]) {
            law_search_resumes(pattern, lines, more, from + 1);
        }
    }
}

/// Escape sequences in a line make no difference to a search.
pub proof fn law_match_ignores_escapes(pattern: Seq<char>, line: Seq<char>)
    ensures
        line_matches(pattern, line) == line_matches(pattern, ansi::visible_text(line)),
{
    ansi::law_strip_twice(line);
}

/// The message for a pattern that does not compile.
pub open spec fn invalid_regex(why: Seq<char>) -> Seq<char> {
    "Invalid regex: "@ + why
}

/// A pattern is taken literally exactly if none of its characters is one of those that
/// have a meaning in regular expressions.
#[verifier::rlimit(50)]
#[verifier::spinoff_prover]
pub proof fn law_literal(pattern: Seq<char>)
    ensures
        literal(pattern) <==> forall|i: int|
            0 <= i < pattern.len() ==> !"\\.^$*+?()[]{}|"@.contains(#[trigger] pattern[i]),
{
    let meta = "\\.^$*+?()[]{}|"@;
    reveal_strlit("\\.^$*+?()[]{}|");
    assert forall|c: char| is_meta(c) implies meta.contains(c) by {
        assert(meta.contains(meta[0]) && meta.contains(meta[1]) && meta.contains(meta[2])
            && meta.contains(meta[3]) && meta.contains(meta[4]) && meta.contains(meta[5])
            && meta.contains(meta[6]) && meta.contains(meta[7]) && meta.contains(meta[8])
            && meta.contains(meta[9]) && meta.contains(meta[10]) && meta.contains(meta[11])
            && meta.contains(meta[12]) && meta.contains(meta[13]));
    }
    assert forall|c: char| meta.contains(c) implies is_meta(c) by {
        let k = choose|k: int| 0 <= k < meta.len() && meta[k] == c;
        assert(is_meta(meta[0]) && is_meta(meta[1]) && is_meta(meta[2]) && is_meta(meta[3])
            && is_meta(meta[4]) && is_meta(meta[5]) && is_meta(meta[6]) && is_meta(meta[7])
            && is_meta(meta[8]) && is_meta(meta[9]) && is_meta(meta[10]) && is_meta(meta[11])
            && is_meta(meta[12]) && is_meta(meta[13]));
    }
    if forall|i: int| 0 <= i < pattern.len() ==> !meta.contains(#[trigger] pattern[i]) {
        assert forall|i: int| 0 <= i < pattern.len() implies !is_meta(#[trigger] pattern[i]) by {
            assert(!meta.contains(pattern[i]));
        }
    }
}

/// A pattern that holds any one of the characters that have a meaning in regular
/// expressions is not literal: it matches what its compiled expression finds, and the
/// ranges that it matches are all that this finds.
#[verifier::rlimit(50)]
#[verifier::spinoff_prover]
pub proof fn law_regex(pattern: Seq<char>, text: Seq<char>, i: int)
    requires
        0 <= i < pattern.len(),
        ({
            let c = pattern[i];
            ||| c == '\\' || c == '.' || c == '^' || c == '$' || c == '|'
            ||| c == '*' || c == '+' || c == '?'
            ||| c == '(' || c == ')' || c == '[' || c == ']' || c == '{' || c == '}'
        }),
    ensures
        ({
            let source = if exists|k: int|
                0 <= k < pattern.len() && (if pattern[k] <= '\x7f' {
                    'A' <= pattern[k] <= 'Z'
                } else {
                    is_uppercase_letter(#[trigger] pattern[k])
                }) {
                pattern
            } else {
                "(?i)"@ + pattern
            };
            &&& !literal(pattern)
            &&& text_matches(pattern, text) == regexp::found(source, text)
            &&& match_ranges(pattern, text) == regexp::found_ranges(source, text)
            &&& match_ranges(pattern, text).len() == regexp::found_ranges(source, text).len()
            &&& expression(pattern) == source
        }),
{
    assert(is_meta(pattern[i]));
}

/// The ranges that a literal pattern matches: each of them holds the pattern, but for
/// the case of ASCII letters where that makes no difference, they do not overlap, and
/// no place where the pattern begins is left out, unless it is within one of them.
#[verifier::rlimit(50)]
#[verifier::spinoff_prover]
pub proof fn law_literal_ranges(pattern: Seq<char>, text: Seq<char>)
    requires
        pattern.len() > 0,
        literal(pattern),
        encode_utf8(text).len() <= usize::MAX,
    ensures
        ({
            let ranges = match_ranges(pattern, text);
            let ignored = ignores_case(pattern);
            let bytes = encode_utf8(folded(text, ignored));
            let wanted = encode_utf8(folded(pattern, ignored));
            &&& bytes.len() == encode_utf8(text).len()
            &&& regexp::are_ranges(ranges, text)
            &&& forall|k: int|
                #![trigger ranges[k]]
                0 <= k < ranges.len() ==> bytes.subrange(ranges[k].0 as int, ranges[k].1 as int)
                    == wanted
            &&& forall|at: int|
                0 <= at && at + wanted.len() <= bytes.len() && #[trigger] bytes.subrange(
                    at,
                    at + wanted.len(),
                ) == wanted ==> exists|k: int|
                    0 <= k < ranges.len() && (#[trigger] ranges[k]).0 <= at < ranges[k].1
        }),
{
    let ci = ignores_case(pattern);
    let n = needle(pattern);
    let h = encode_utf8(text);
    let ranges = match_ranges(pattern, text);
    let bytes = encode_utf8(folded(text, ci));
    lemma_literal_ranges(pattern, text);
    lemma_fold_text(text, ci);
    lemma_fold_text(pattern, ci);
    encode_utf8_first_scalar(pattern);
    bmh::law_all_from(n, h, ci, 0);
    assert forall|k: int| #![trigger ranges[k]] 0 <= k < ranges.len() implies bytes.subrange(
        ranges[k].0 as int,
        ranges[k].1 as int,
    ) == n by {
        let at = ranges[k].0 as int;
        assert(bmh::occurs_at(n, h, ci, at));
        assert forall|j: int| 0 <= j < n.len() implies bytes[at + j] == n[j] by {
            assert(bmh::fold(h[at + j], ci) == n[j]);
        }
        assert(bytes.subrange(at, at + n.len()) =~= n);
    }
    assert forall|at: int|
        0 <= at && at + n.len() <= bytes.len() && #[trigger] bytes.subrange(at, at + n.len())
            == n implies exists|k: int|
        0 <= k < ranges.len() && (#[trigger] ranges[k]).0 <= at < ranges[k].1 by {
        let part = bytes.subrange(at, at + n.len());
        assert forall|j: int| 0 <= j < n.len() implies bmh::fold(#[trigger] h[at + j], ci)
            == n[j] by {
            assert(part[j] == n[j]);
            assert(bytes[at + j] == bmh::fold(h[at + j], ci));
        }
        assert(bmh::occurs_at(n, h, ci, at));
    }
}

/// The case of ASCII letters makes no difference exactly if the pattern holds no
/// uppercase letter, of ASCII or another.
pub proof fn law_smart_case(pattern: Seq<char>)
    ensures
        (exists|i: int| 0 <= i < pattern.len() && 'A' <= #[trigger] pattern[i] <= 'Z')
            ==> !ignores_case(pattern),
        (exists|i: int|
            0 <= i < pattern.len() && pattern[i] > '\x7f' && is_uppercase_letter(
                #[trigger] pattern[i],
            )) ==> !ignores_case(pattern),
        (forall|i: int|
            0 <= i < pattern.len() ==> if pattern[i] > '\x7f' {
                !is_uppercase_letter(pattern[i])
            } else {
                !('A' <= #[trigger] pattern[i] <= 'Z')
            }) ==> ignores_case(pattern),
        forall|c: char|
            lower_char(c) == #[trigger] lower_char(lower_char(c)) && (lower_char(c) != c ==> 'A'
                <= c <= 'Z' && lower_char(c) as u32 == c as u32 + 32),
{
    assert forall|c: char|
        lower_char(c) == #[trigger] lower_char(lower_char(c)) && (lower_char(c) != c ==> 'A' <= c
            <= 'Z' && lower_char(c) as u32 == c as u32 + 32) by {
    }
    if exists|i: int| 0 <= i < pattern.len() && 'A' <= #[trigger] pattern[i] <= 'Z' {
        let i = choose|i: int| 0 <= i < pattern.len() && 'A' <= #[trigger] pattern[i] <= 'Z';
        assert(is_upper(pattern[i]));
    }
    if exists|i: int|
        0 <= i < pattern.len() && pattern[i] > '\x7f' && is_uppercase_letter(
            #[trigger] pattern[i],
        ) {
        let i = choose|i: int|
            0 <= i < pattern.len() && pattern[i] > '\x7f' && is_uppercase_letter(
                #[trigger] pattern[i],
            );
        assert(is_upper(pattern[i]));
    }
}

} // verus!

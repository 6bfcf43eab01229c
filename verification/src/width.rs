//! How many terminal columns text takes.
use crate::text;
use vstd::prelude::*;
use vstd::utf8::*;

verus! {

/// What `UnicodeWidthChar::width` returns for a character: its columns, or
/// `None` for a control character.
pub uninterp spec fn char_columns(c: char) -> Option<usize>;

/// What `UnicodeWidthStr::width` returns for a text: the columns of the whole,
/// in which some character combinations take less than their parts.
pub uninterp spec fn str_columns(s: Seq<char>) -> usize;

/// Calls `unicode_width::UnicodeWidthChar::width`.
///
/// Besides naming the result, this claims that exactly the control characters
/// have no width, that printable ASCII is one column wide, and that no
/// character is wider than its UTF-8 encoding is long.
#[verifier::external_body]
pub(crate) fn char_width(c: char) -> (r: Option<usize>)
    ensures
        r == char_columns(c),
        r is None <==> is_control(c),
        ' ' <= c <= '~' ==> r == Some(1usize),
        r matches Some(w) ==> w <= encode_scalar(c as u32).len(),
{
    unicode_width::UnicodeWidthChar::width(c)
}

/// Calls `unicode_width::UnicodeWidthStr::width`, and names its result.
#[verifier::external_body]
pub(crate) fn text_width(s: &str) -> (r: usize)
    ensures
        r == str_columns(s@),
{
    unicode_width::UnicodeWidthStr::width(s)
}

/// Whether a character is a control character, which has no width of its own.
pub open spec fn is_control(c: char) -> bool {
    c < ' ' || '\x7f' <= c < '\u{a0}'
}

/// Columns of a printable character: one in ASCII.
pub open spec fn printed_columns(c: char) -> nat {
    if c <= '~' {
        1
    } else {
        char_columns(c)->0 as nat
    }
}

/// Columns of a character on the screen; a control character takes none.
pub open spec fn columns(c: char) -> nat {
    if is_control(c) {
        0
    } else {
        printed_columns(c)
    }
}

/// Columns of a character that is shown literally; a control character takes one.
pub open spec fn raw_columns(c: char) -> nat {
    if is_control(c) {
        1
    } else {
        printed_columns(c)
    }
}

/// Sum of the columns of the characters of `s`.
pub open spec fn display_columns(s: Seq<char>) -> nat
    decreases s.len(),
{
    if s.len() == 0 {
        0
    } else {
        display_columns(s.drop_last()) + columns(s.last())
    }
}

/// The columns of two texts add up.
pub proof fn lemma_display_columns_concat(a: Seq<char>, b: Seq<char>)
    ensures
        display_columns(a + b) == display_columns(a) + display_columns(b),
    decreases b.len(),
{
    if b.len() == 0 {
        assert(a + b =~= a);
    } else {
        lemma_display_columns_concat(a, b.drop_last());
        assert((a + b).drop_last() =~= a + b.drop_last());
    }
}

/// Display width of a string that holds no escape sequences.
pub fn display_width(s: &str) -> (r: usize)
    ensures
        r == display_columns(s@),
{
    let bytes = s.as_bytes();
    let limit: usize = bytes.len();
    let mut sum: usize = 0;
    for c in it: s.chars()
        invariant
            it.seq() == s@,
            limit == encode_utf8(s@).len(),
            sum == display_columns(s@.take(it.index() as int)),
            sum <= encode_utf8(s@.take(it.index() as int)).len(),
    {
        proof {
            let i = it.index() as int;
            let before = s@.take(i);
            let now = s@.take(i + 1);
            assert(now =~= before + seq![c]);
            assert(now.drop_last() =~= before);
            text::lemma_encode_concat(before, seq![c]);
            text::lemma_encode_one(c);
            assert(s@ =~= now + s@.skip(i + 1));
            text::lemma_encode_concat(now, s@.skip(i + 1));
        }
        let w: usize = match char_width(c) {
            Some(w) => w,
            None => 0,
        };
        sum = sum + w;
    }
    assert(s@.take(s@.len() as int) =~= s@);
    sum
}

/// The columns of a character: none for a control character, unless it is shown
/// literally, when it takes one; one for other characters of ASCII; for the rest, what
/// their Unicode width is.
pub proof fn law_columns(c: char)
    ensures
        (c as u32) < 0x20 || 0x7f <= c as u32 <= 0x9f ==> columns(c) == 0 && raw_columns(c) == 1,
        0x20 <= c as u32 <= 0x7e ==> columns(c) == 1 && raw_columns(c) == 1,
        c as u32 > 0x9f ==> columns(c) == char_columns(c)->0 && raw_columns(c) == columns(c),
{
}

/// The columns of a text are those of its characters.
pub proof fn law_display_columns(s: Seq<char>, c: char)
    ensures
        display_columns(Seq::empty()) == 0,
        display_columns(s.push(c)) == display_columns(s) + columns(c),
{
    assert(s.push(c).drop_last() =~= s);
}

} // verus!

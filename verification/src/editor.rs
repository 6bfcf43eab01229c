//! Editing a line of input.
use crate::text;
use vstd::prelude::*;
use vstd::utf8::*;

verus! {

/// A line of input, cut in two by the cursor.
#[verifier::ext_equal]
pub struct EditorView {
    pub before: Seq<char>,
    pub after: Seq<char>,
}

impl EditorView {
    /// The whole line.
    pub open spec fn content(self) -> Seq<char> {
        self.before + self.after
    }

    /// No characters.
    pub open spec fn empty() -> EditorView {
        EditorView { before: Seq::empty(), after: Seq::empty() }
    }

    /// The given line, with the cursor at its end.
    pub open spec fn of(line: Seq<char>) -> EditorView {
        EditorView { before: line, after: Seq::empty() }
    }

    /// A character more before the cursor.
    pub open spec fn insert(self, c: char) -> EditorView {
        EditorView { before: self.before.push(c), after: self.after }
    }

    /// Without the character before the cursor.
    pub open spec fn backspace(self) -> EditorView {
        if self.before.len() == 0 {
            self
        } else {
            EditorView { before: self.before.drop_last(), after: self.after }
        }
    }

    /// Without the character after the cursor.
    pub open spec fn delete(self) -> EditorView {
        if self.after.len() == 0 {
            self
        } else {
            EditorView { before: self.before, after: self.after.skip(1) }
        }
    }

    /// The cursor one character to the left.
    pub open spec fn left(self) -> EditorView {
        if self.before.len() == 0 {
            self
        } else {
            EditorView {
                before: self.before.drop_last(),
                after: seq![self.before.last()] + self.after,
            }
        }
    }

    /// The cursor one character to the right.
    pub open spec fn right(self) -> EditorView {
        if self.after.len() == 0 {
            self
        } else {
            EditorView { before: self.before.push(self.after[0]), after: self.after.skip(1) }
        }
    }

    /// The cursor at the start.
    pub open spec fn home(self) -> EditorView {
        EditorView { before: Seq::empty(), after: self.content() }
    }

    /// The cursor at the end.
    pub open spec fn end(self) -> EditorView {
        EditorView { before: self.content(), after: Seq::empty() }
    }
}

/// Backspace takes back what was inserted.
pub proof fn law_backspace_after_insert(e: EditorView, c: char)
    ensures
        e.insert(c).backspace() == e,
{
    assert(e.insert(c).backspace().before =~= e.before);
}

/// Delete takes back what was inserted, once the cursor is before it.
pub proof fn law_delete_after_insert(e: EditorView, c: char)
    ensures
        e.insert(c).left().delete() == e,
{
    assert(e.insert(c).left().before =~= e.before);
    assert(e.insert(c).left().delete().after =~= e.after);
}

/// Moving right undoes moving left, and the other way round.
pub proof fn law_left_and_right(e: EditorView)
    ensures
        e.before.len() > 0 ==> e.left().right() == e,
        e.after.len() > 0 ==> e.right().left() == e,
{
    if e.before.len() > 0 {
        assert(e.left().right().before =~= e.before);
        assert(e.left().right().after =~= e.after);
    }
    if e.after.len() > 0 {
        assert(e.right().left().before =~= e.before);
        assert(e.right().left().after =~= e.after);
    }
}

/// Moving the cursor leaves the line as it is.
pub proof fn law_moves_keep_content(e: EditorView)
    ensures
        e.left().content() == e.content(),
        e.right().content() == e.content(),
        e.home().content() == e.content(),
        e.end().content() == e.content(),
{
    assert(e.left().content() =~= e.content());
    assert(e.right().content() =~= e.content());
    assert(e.home().content() =~= e.content());
    assert(e.end().content() =~= e.content());
}

/// What each edit makes of the line and of the place of the cursor in it.
pub proof fn law_edits(e: EditorView, c: char)
    ensures
        ({
            let line = e.before + e.after;
            let at = e.before.len() as int;
            let n = line.len() as int;
            &&& e.insert(c).before + e.insert(c).after == line.insert(at, c)
            &&& e.insert(c).before.len() == at + 1
            &&& e.backspace().before + e.backspace().after == if at > 0 {
                line.remove(at - 1)
            } else {
                line
            }
            &&& e.backspace().before.len() == if at > 0 {
                at - 1
            } else {
                0
            }
            &&& e.delete().before + e.delete().after == if at < n {
                line.remove(at)
            } else {
                line
            }
            &&& e.delete().before.len() == at
            &&& e.left().before + e.left().after == line
            &&& e.left().before.len() == if at > 0 {
                at - 1
            } else {
                0
            }
            &&& e.right().before + e.right().after == line
            &&& e.right().before.len() == if at < n {
                at + 1
            } else {
                n
            }
            &&& e.home().before + e.home().after == line
            &&& e.home().before.len() == 0
            &&& e.end().before + e.end().after == line
            &&& e.end().before.len() == n
        }),
{
    let line = e.before + e.after;
    let at = e.before.len() as int;
    law_moves_keep_content(e);
    assert(e.insert(c).content() =~= line.insert(at, c));
    if at > 0 {
        assert(e.backspace().content() =~= line.remove(at - 1));
    }
    if e.after.len() > 0 {
        assert(e.delete().content() =~= line.remove(at));
    }
}

/// A line of input that is being edited.
pub struct LineEditor {
    pub content: String,
    /// Byte position.
    pub cursor: usize,
}

impl View for LineEditor {
    type V = EditorView;

    open spec fn view(&self) -> EditorView {
        let bytes = encode_utf8(self.content@);
        EditorView {
            before: decode_utf8(bytes.subrange(0, self.cursor as int)),
            after: decode_utf8(bytes.subrange(self.cursor as int, bytes.len() as int)),
        }
    }
}

/// What the cursor cuts a line into, when it is after `before`.
proof fn lemma_cut(before: Seq<char>, after: Seq<char>)
    ensures
        ({
            let bytes = encode_utf8(before + after);
            let at = encode_utf8(before).len() as int;
            &&& is_char_boundary(bytes, at)
            &&& decode_utf8(bytes.subrange(0, at)) == before
            &&& decode_utf8(bytes.subrange(at, bytes.len() as int)) == after
        }),
{
    let a = encode_utf8(before);
    let b = encode_utf8(after);
    let bytes = encode_utf8(before + after);
    text::lemma_encode_concat(before, after);
    assert(bytes =~= a + b);
    assert(bytes.subrange(0, a.len() as int) =~= a);
    assert(bytes.subrange(a.len() as int, bytes.len() as int) =~= b);
    encode_utf8_decode_utf8(before);
    encode_utf8_decode_utf8(after);
    encode_utf8_valid_utf8(before + after);
    if after.len() == 0 {
        assert(b.len() == 0);
        is_char_boundary_start_end_of_seq(bytes);
    } else {
        encode_utf8_first_scalar(after);
        assert(bytes[a.len() as int] == b[0]);
        is_char_boundary_iff_not_is_continuation_byte(bytes, a.len() as int);
    }
}

impl LineEditor {
    /// The cursor is between characters.
    pub open spec fn wf(&self) -> bool {
        is_char_boundary(encode_utf8(self.content@), self.cursor as int)
    }

    /// An empty line.
    pub fn new() -> (r: LineEditor)
        ensures
            r@ == EditorView::empty(),
            r.content@ == Seq::<char>::empty(),
            r.wf(),
    {
        let r = LineEditor { content: String::new(), cursor: 0 };
        proof {
            lemma_cut(Seq::empty(), Seq::empty());
            assert(Seq::<char>::empty() + Seq::<char>::empty() =~= Seq::<char>::empty());
            assert(encode_utf8(Seq::<char>::empty()).len() == 0);
        }
        r
    }

    /// The two parts of the line.
    pub proof fn lemma_parts(&self)
        requires
            self.wf(),
        ensures
            self@.content() == self.content@,
            encode_utf8(self@.before).len() == self.cursor,
    {
        let bytes = encode_utf8(self.content@);
        let at = self.cursor as int;
        encode_utf8_valid_utf8(self.content@);
        encode_utf8_decode_utf8(self.content@);
        valid_utf8_split(bytes, at);
        decode_utf8_split(bytes, at);
        decode_utf8_encode_utf8(bytes.subrange(0, at));
    }

    /// Cut the line at the cursor.
    fn parts(&self) -> (r: (&str, &str))
        requires
            self.wf(),
        ensures
            r.0@ == self@.before,
            r.1@ == self@.after,
            self.content@ == self@.content(),
    {
        let (a, b) = self.content.as_str().split_at(self.cursor);
        proof {
            self.lemma_parts();
            encode_utf8_decode_utf8(a@);
            encode_utf8_decode_utf8(b@);
        }
        (a, b)
    }

    /// The line of two parts, with the cursor between them.
    fn join(front: &str, back: &str) -> (r: LineEditor)
        ensures
            r@ == (EditorView { before: front@, after: back@ }),
            r.content@ == front@ + back@,
            r.wf(),
    {
        let mut content = front.to_owned();
        content.push_str(back);
        let cursor: usize = front.as_bytes().len();
        proof {
            lemma_cut(front@, back@);
        }
        LineEditor { content, cursor }
    }

    /// Empty the line.
    pub fn clear(&mut self)
        ensures
            final(self)@ == EditorView::empty(),
            final(self).content@ == Seq::<char>::empty(),
            final(self).wf(),
    {
        *self = LineEditor::new();
    }

    /// Replace the line, and put the cursor at its end.
    pub fn set(&mut self, line: &str)
        ensures
            final(self)@ == EditorView::of(line@),
            final(self).content@ == line@,
            final(self).wf(),
    {
        *self = LineEditor::join(line, "");
        proof {
            reveal_strlit("");
            assert(line@ + ""@ =~= line@);
            assert(""@ =~= Seq::<char>::empty());
        }
    }

    /// Insert a character at the cursor, which moves past it.
    pub fn insert(&mut self, ch: char)
        requires
            old(self).wf(),
        ensures
            final(self)@ == old(self)@.insert(ch),
            final(self).content@ == final(self)@.content(),
            final(self).wf(),
    {
        let (a, b) = self.parts();
        let mut front = a.to_owned();
        front.push(ch);
        *self = LineEditor::join(&front, b);
    }

    /// Remove the character before the cursor.
    pub fn backspace(&mut self)
        requires
            old(self).wf(),
        ensures
            final(self)@ == old(self)@.backspace(),
            final(self).content@ == final(self)@.content(),
            final(self).wf(),
    {
        let (a, b) = self.parts();
        let chars = text::chars_of(a);
        let n: usize = chars.len();
        if n > 0 {
            let front = text::string_of(&chars, 0, n - 1);
            assert(front@ =~= self@.before.drop_last());
            *self = LineEditor::join(&front, b);
        }
    }

    /// Remove the character after the cursor.
    pub fn delete(&mut self)
        requires
            old(self).wf(),
        ensures
            final(self)@ == old(self)@.delete(),
            final(self).content@ == final(self)@.content(),
            final(self).wf(),
    {
        let (a, b) = self.parts();
        let chars = text::chars_of(b);
        let n: usize = chars.len();
        if n > 0 {
            let back = text::string_of(&chars, 1, n);
            assert(back@ =~= self@.after.skip(1));
            *self = LineEditor::join(a, &back);
        }
    }

    /// Move the cursor one character to the left.
    pub fn move_left(&mut self)
        requires
            old(self).wf(),
        ensures
            final(self)@ == old(self)@.left(),
            final(self).content@ == old(self).content@,
            final(self).content@ == final(self)@.content(),
            final(self).wf(),
    {
        let (a, b) = self.parts();
        let chars = text::chars_of(a);
        let n: usize = chars.len();
        if n > 0 {
            let front = text::string_of(&chars, 0, n - 1);
            let mut back = String::new();
            back.push(chars[n - 1]);
            back.push_str(b);
            assert(front@ =~= self@.left().before);
            assert(back@ =~= self@.left().after);
            proof {
                law_moves_keep_content(self@);
            }
            *self = LineEditor::join(&front, &back);
        }
    }

    /// Move the cursor one character to the right.
    pub fn move_right(&mut self)
        requires
            old(self).wf(),
        ensures
            final(self)@ == old(self)@.right(),
            final(self).content@ == old(self).content@,
            final(self).content@ == final(self)@.content(),
            final(self).wf(),
    {
        let (a, b) = self.parts();
        let chars = text::chars_of(b);
        let n: usize = chars.len();
        if n > 0 {
            let mut front = a.to_owned();
            front.push(chars[0]);
            let back = text::string_of(&chars, 1, n);
            assert(back@ =~= self@.after.skip(1));
            proof {
                law_moves_keep_content(self@);
            }
            *self = LineEditor::join(&front, &back);
        }
    }

    /// Move the cursor to the start.
    pub fn move_home(&mut self)
        requires
            old(self).wf(),
        ensures
            final(self)@ == old(self)@.home(),
            final(self).content@ == old(self).content@,
            final(self).cursor == 0,
            final(self).wf(),
    {
        proof {
            self.lemma_parts();
            lemma_cut(Seq::empty(), self.content@);
            assert(Seq::<char>::empty() + self.content@ =~= self.content@);
            assert(encode_utf8(Seq::<char>::empty()).len() == 0);
        }
        self.cursor = 0;
    }

    /// Move the cursor to the end.
    pub fn move_end(&mut self)
        requires
            old(self).wf(),
        ensures
            final(self)@ == old(self)@.end(),
            final(self).content@ == old(self).content@,
            final(self).wf(),
    {
        proof {
            self.lemma_parts();
            lemma_cut(self.content@, Seq::empty());
            assert(self.content@ + Seq::<char>::empty() =~= self.content@);
        }
        self.cursor = self.content.as_str().as_bytes().len();
    }
}

} // verus!

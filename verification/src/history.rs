//! The patterns that were searched for before.
use crate::text;
use vstd::prelude::*;

verus! {

/// How many patterns are kept.
pub const MAX_ENTRIES: usize = 100;

/// The last `n` items of a sequence, or all of a shorter one.
pub open spec fn last_of<A>(s: Seq<A>, n: nat) -> Seq<A> {
    if s.len() > n {
        s.skip(s.len() - n)
    } else {
        s
    }
}

/// Tells patterns that differ from the given one.
pub open spec fn differs_from(pattern: Seq<char>) -> spec_fn(Seq<char>) -> bool {
    |e: Seq<char>| e != pattern
}

/// The patterns that differ from the given one.
pub open spec fn others(entries: Seq<Seq<char>>, pattern: Seq<char>) -> Seq<Seq<char>> {
    entries.filter(differs_from(pattern))
}

/// What a search history holds.
#[verifier::ext_equal]
pub struct HistoryView {
    /// The patterns, oldest first.
    pub entries: Seq<Seq<char>>,
    /// The entry that was recalled last; past the end when none is.
    pub cursor: int,
    /// The input that was being typed when recalling started.
    pub draft: Seq<char>,
}

impl HistoryView {
    /// Add a pattern as the latest: it leaves its earlier place, and the oldest
    /// patterns go when there are too many. Nothing changes for an empty one.
    pub open spec fn push(self, pattern: Seq<char>) -> HistoryView {
        if pattern.len() == 0 {
            self
        } else {
            let kept = others(self.entries, pattern).push(pattern);
            let entries = last_of(kept, MAX_ENTRIES as nat);
            HistoryView { entries, cursor: entries.len() as int, draft: self.draft }
        }
    }

    /// Recall the entry before the current one; the oldest stays where it is.
    pub open spec fn prev(self, input: Seq<char>) -> HistoryView {
        if self.entries.len() == 0 {
            self
        } else {
            HistoryView {
                entries: self.entries,
                cursor: if self.cursor == 0 {
                    0
                } else {
                    self.cursor - 1
                },
                draft: if self.cursor == self.entries.len() {
                    input
                } else {
                    self.draft
                },
            }
        }
    }

    /// Recall the entry after the current one, or none past the latest.
    pub open spec fn next(self) -> HistoryView {
        if self.cursor >= self.entries.len() {
            self
        } else {
            HistoryView { entries: self.entries, cursor: self.cursor + 1, draft: self.draft }
        }
    }

    /// Stop recalling.
    pub open spec fn reset(self) -> HistoryView {
        HistoryView {
            entries: self.entries,
            cursor: self.entries.len() as int,
            draft: Seq::empty(),
        }
    }

    /// The entry under the cursor.
    pub open spec fn current(self) -> Option<Seq<char>> {
        if 0 <= self.cursor < self.entries.len() {
            Some(self.entries[self.cursor])
        } else {
            None
        }
    }
}

/// The patterns that the text of a history file holds: one in each line that is
/// not empty. No file is as good as an empty one.
pub open spec fn loaded(file: Option<Seq<char>>) -> Seq<Seq<char>> {
    match file {
        Some(s) => text::lines_of(s, false).filter(|l: Seq<char>| l.len() > 0),
        None => Seq::empty(),
    }
}

/// The text of the history file: each pattern, and a line feed after it.
pub open spec fn saved(entries: Seq<Seq<char>>) -> Seq<char>
    decreases entries.len(),
{
    if entries.len() == 0 {
        Seq::empty()
    } else {
        saved(entries.drop_last()) + entries.last() + seq!['\n']
    }
}

/// The patterns come back from the file as they were saved. (Left out are those
/// that a line cannot hold: one that is empty, has a line feed, or ends with a
/// carriage return.)
pub proof fn law_load_after_save(entries: Seq<Seq<char>>)
    requires
        forall|i: int|
            #![trigger entries[i]]
            0 <= i < entries.len() ==> {
                &&& entries[i].len() > 0
                &&& !entries[i].contains('\n')
                &&& entries[i].last() != '\r'
            },
    ensures
        loaded(Some(saved(entries))) == entries,
{
    let p = |l: Seq<char>| l.len() > 0;
    lemma_saved_lines(entries);
    lemma_filter_all(entries, p);
}

/// A filter that everything passes changes nothing.
proof fn lemma_filter_all<A>(s: Seq<A>, p: spec_fn(A) -> bool)
    requires
        forall|i: int| 0 <= i < s.len() ==> p(#[trigger] s[i]),
    ensures
        s.filter(p) == s,
    decreases s.len(),
{
    reveal_with_fuel(Seq::filter, 2);
    if s.len() > 0 {
        lemma_filter_all(s.drop_last(), p);
        assert(p(s[s.len() - 1]));
        assert(s =~= s.drop_last().push(s.last()));
    }
}

/// The text of a history file begins with its first pattern.
proof fn lemma_saved_first(entries: Seq<Seq<char>>)
    requires
        entries.len() > 0,
    ensures
        saved(entries) == entries[0] + seq!['\n'] + saved(entries.skip(1)),
    decreases entries.len(),
{
    if entries.len() == 1 {
        assert(entries.drop_last() =~= Seq::empty());
        assert(entries.skip(1) =~= Seq::empty());
        assert(saved(entries) =~= entries[0] + seq!['\n'] + saved(entries.skip(1)));
    } else {
        let init = entries.drop_last();
        lemma_saved_first(init);
        assert(entries.skip(1).drop_last() =~= init.skip(1));
        assert(entries.skip(1).last() == entries.last());
        assert(saved(entries) =~= entries[0] + seq!['\n'] + saved(entries.skip(1)));
    }
}

/// The lines of a history file are the patterns.
proof fn lemma_saved_lines(entries: Seq<Seq<char>>)
    requires
        forall|i: int|
            #![trigger entries[i]]
            0 <= i < entries.len() ==> {
                &&& entries[i].len() > 0
                &&& !entries[i].contains('\n')
                &&& entries[i].last() != '\r'
            },
    ensures
        text::lines_of(saved(entries), false) == entries,
    decreases entries.len(),
{
    if entries.len() > 0 {
        let first = entries[0];
        let rest = entries.skip(1);
        lemma_saved_first(entries);
        lemma_saved_lines(rest);
        let s = saved(entries);
        text::lemma_line_end_at(first, saved(rest));
        assert(s.take(first.len() as int) =~= first);
        assert(s.skip((first.len() + 1) as int) =~= saved(rest));
        assert(entries =~= seq![first] + rest);
    } else {
        assert(text::lines_of(saved(entries), false) =~= entries);
    }
}

/// A pattern that was added is the latest entry, and there only; the latest of the
/// others keep their order before it. No more than `MAX_ENTRIES` are left.
pub proof fn law_push(h: HistoryView, pattern: Seq<char>)
    requires
        pattern.len() > 0,
    ensures
        ({
            let after = h.push(pattern).entries;
            &&& after.len() > 0
            &&& after.last() == pattern
            &&& !after.drop_last().contains(pattern)
            &&& after.len() <= MAX_ENTRIES
            &&& after.drop_last() == last_of(others(h.entries, pattern), (MAX_ENTRIES - 1) as nat)
            &&& h.push(pattern).current() is None
        }),
{
    let p = differs_from(pattern);
    let rest = others(h.entries, pattern);
    let kept = rest.push(pattern);
    let after = h.push(pattern).entries;
    let k: int = if kept.len() > MAX_ENTRIES {
        kept.len() - MAX_ENTRIES
    } else {
        0
    };
    assert(after =~= kept.skip(k));
    assert(after.drop_last() =~= rest.skip(k));
    assert forall|i: int| 0 <= i < rest.skip(k).len() implies rest.skip(k)[i] != pattern by {
        h.entries.lemma_filter_pred(p, i + k);
    }
}

/// A history without repetitions stays so.
pub proof fn law_push_no_duplicates(h: HistoryView, pattern: Seq<char>)
    requires
        h.entries.no_duplicates(),
    ensures
        h.push(pattern).entries.no_duplicates(),
{
    if pattern.len() > 0 {
        let p = differs_from(pattern);
        let rest = others(h.entries, pattern);
        let kept = rest.push(pattern);
        lemma_filter_no_duplicates(h.entries, p);
        assert forall|i: int| 0 <= i < rest.len() implies rest[i] != pattern by {
            h.entries.lemma_filter_pred(p, i);
        }
        assert(kept.no_duplicates());
        let after = h.push(pattern).entries;
        if kept.len() > MAX_ENTRIES {
            let k: int = kept.len() - MAX_ENTRIES;
            assert(after =~= kept.skip(k));
            assert forall|i: int, j: int|
                0 <= i < j < after.len() implies #[trigger] after[i] != #[trigger] after[j] by {
                assert(after[i] == kept[i + k]);
                assert(after[j] == kept[j + k]);
            }
        }
    }
}

proof fn lemma_filter_no_duplicates<A>(s: Seq<A>, p: spec_fn(A) -> bool)
    requires
        s.no_duplicates(),
    ensures
        s.filter(p).no_duplicates(),
    decreases s.len(),
{
    reveal_with_fuel(Seq::filter, 2);
    if s.len() > 0 {
        let init = s.drop_last();
        lemma_filter_no_duplicates(init, p);
        let f = init.filter(p);
        assert forall|i: int| 0 <= i < f.len() implies f[i] != s.last() by {
            assert(f.contains(f[i]));
            init.lemma_filter_contains_rev(p, f[i]);
        }
    }
}

/// Going forward undoes going back, except that the draft is kept. (Left out is the
/// oldest entry, from which there is no way back.)
pub proof fn law_next_after_prev(h: HistoryView, input: Seq<char>)
    requires
        0 <= h.cursor <= h.entries.len(),
        h.cursor > 0 || h.entries.len() == 0,
    ensures
        ({
            let back = h.prev(input).next();
            &&& back.entries == h.entries
            &&& back.cursor == h.cursor
            &&& back.current() == h.current()
            &&& back == h || (h.cursor == h.entries.len() && back.draft == input)
        }),
{
}

/// The search patterns of this and earlier sessions.
pub struct SearchHistory {
    pub entries: Vec<String>,
    pub cursor: usize,
    pub draft: String,
}

impl View for SearchHistory {
    type V = HistoryView;

    open spec fn view(&self) -> HistoryView {
        HistoryView {
            entries: text::texts(self.entries@),
            cursor: self.cursor as int,
            draft: self.draft@,
        }
    }
}

impl SearchHistory {
    /// The cursor is on an entry or just past the latest.
    pub open spec fn wf(&self) -> bool {
        self.cursor <= self.entries@.len()
    }

    /// The history that a file holds, given its text if it could be read.
    pub fn load(file: Option<&str>) -> (r: SearchHistory)
        ensures
            r@.entries == match file {
                Some(s) => loaded(Some(s@)),
                None => loaded(None),
            },
            r@.cursor == r@.entries.len(),
            r@.draft == Seq::<char>::empty(),
            r.wf(),
    {
        let mut entries: Vec<String> = Vec::new();
        if let Some(s) = file {
            let lines = text::split_lines(s, false);
            let ghost all = text::texts(lines@);
            let ghost p = |l: Seq<char>| l.len() > 0;
            let n: usize = lines.len();
            let mut i: usize = 0;
            while i < n
                invariant
                    i <= n,
                    n == lines@.len(),
                    all == text::texts(lines@),
                    p == (|l: Seq<char>| l.len() > 0),
                    text::texts(entries@) =~= all.take(i as int).filter(p),
                decreases n - i,
            {
                proof {
                    reveal_with_fuel(Seq::<_>::filter, 1);
                    assert(all.take(i + 1).drop_last() =~= all.take(i as int));
                    assert(all.take(i + 1).last() == lines@[i as int]@);
                }
                if !lines[i].as_str().is_empty() {
                    entries.push(lines[i].clone());
                }
                i = i + 1;
            }
            assert(all.take(n as int) =~= all);
        }
        assert(file is None ==> text::texts(entries@) =~= loaded(None));
        let cursor: usize = entries.len();
        SearchHistory { entries, cursor, draft: String::new() }
    }

    /// The text of the file that the history is kept in.
    pub fn save(&self) -> (r: String)
        ensures
            r@ == saved(self@.entries),
    {
        let ghost all = self@.entries;
        let n: usize = self.entries.len();
        let mut out = String::new();
        let mut i: usize = 0;
        while i < n
            invariant
                i <= n,
                n == self.entries@.len(),
                all == self@.entries,
                out@ == saved(all.take(i as int)),
            decreases n - i,
        {
            proof {
                assert(all.take(i + 1).drop_last() =~= all.take(i as int));
                assert(all.take(i + 1).last() == self.entries@[i as int]@);
            }
            out.push_str(&self.entries[i]);
            out.push('\n');
            assert(out@ =~= saved(all.take(i + 1)));
            i = i + 1;
        }
        assert(all.take(n as int) =~= all);
        out
    }

    /// Add a pattern as the latest entry.
    pub fn push(&mut self, pattern: &str)
        requires
            old(self).wf(),
        ensures
            final(self)@ == old(self)@.push(pattern@),
            final(self).wf(),
    {
        if pattern.is_empty() {
            return;
        }
        let ghost p = differs_from(pattern@);
        let ghost all = old(self)@.entries;
        let n: usize = self.entries.len();
        let mut kept: Vec<String> = Vec::new();
        let mut i: usize = 0;
        while i < n
            invariant
                i <= n,
                n == self.entries@.len(),
                *self == *old(self),
                all == text::texts(self.entries@),
                p == differs_from(pattern@),
                text::texts(kept@) =~= all.take(i as int).filter(p),
            decreases n - i,
        {
            proof {
                reveal_with_fuel(Seq::<_>::filter, 1);
                assert(all.take(i + 1).drop_last() =~= all.take(i as int));
                assert(all.take(i + 1).last() == self.entries@[i as int]@);
            }
            if !text::same_text(&self.entries[i], pattern) {
                kept.push(self.entries[i].clone());
            }
            i = i + 1;
        }
        assert(all.take(n as int) =~= all);
        kept.push(pattern.to_owned());
        assert(text::texts(kept@) =~= all.filter(p).push(pattern@));
        if kept.len() > MAX_ENTRIES {
            let cut: usize = kept.len() - MAX_ENTRIES;
            let ghost whole = kept@;
            kept = kept.split_off(cut);
            assert(text::texts(kept@) =~= text::texts(whole).skip(cut as int));
        }
        self.cursor = kept.len();
        self.entries = kept;
    }

    /// Recall the entry before the current one, keeping `current_input` as the
    /// draft when recalling starts.
    pub fn prev(&mut self, current_input: &str) -> (r: Option<&str>)
        requires
            old(self).wf(),
        ensures
            final(self)@ == old(self)@.prev(current_input@),
            final(self).wf(),
            r is None <==> old(self)@.entries.len() == 0,
            r matches Some(s) ==> final(self)@.current() == Some(s@),
    {
        if self.entries.is_empty() {
            return None;
        }
        if self.cursor == self.entries.len() {
            self.draft = current_input.to_owned();
        }
        if self.cursor == 0 {
            return Some(&self.entries[0]);
        }
        self.cursor = self.cursor - 1;
        Some(&self.entries[self.cursor])
    }

    /// Recall the entry after the current one.
    pub fn next(&mut self) -> (r: Option<&str>)
        requires
            old(self).wf(),
        ensures
            final(self)@ == old(self)@.next(),
            final(self).wf(),
            match r {
                Some(s) => final(self)@.current() == Some(s@),
                None => final(self)@.current() is None,
            },
    {
        if self.cursor >= self.entries.len() {
            return None;
        }
        self.cursor = self.cursor + 1;
        if self.cursor >= self.entries.len() {
            return None;
        }
        Some(&self.entries[self.cursor])
    }

    /// Stop recalling, and forget the draft.
    pub fn reset_cursor(&mut self)
        ensures
            final(self)@ == old(self)@.reset(),
            final(self).wf(),
    {
        self.cursor = self.entries.len();
        self.draft = String::new();
    }

    /// The input that was being typed when recalling started.
    pub fn draft(&self) -> (r: &str)
        ensures
            r@ == self@.draft,
    {
        &self.draft
    }
}

/// Where a pattern goes that was not there before, and where one goes that was: to the
/// end. The others keep their order, and only the oldest go, where there are more than
/// a hundred.
#[verifier::rlimit(50)]
#[verifier::spinoff_prover]
pub proof fn law_push_moves_to_end(h: HistoryView, pattern: Seq<char>, i: int)
    requires
        pattern.len() > 0,
        h.entries.no_duplicates(),
        0 <= i <= h.entries.len(),
        i < h.entries.len() ==> h.entries[i] == pattern,
        i == h.entries.len() ==> !h.entries.contains(pattern),
    ensures
        ({
            let rest = if i < h.entries.len() {
                h.entries.take(i) + h.entries.skip(i + 1)
            } else {
                h.entries
            };
            let w = h.push(pattern);
            &&& w.entries == if rest.len() < 100 {
                rest.push(pattern)
            } else {
                rest.skip(rest.len() - 99).push(pattern)
            }
            &&& w.cursor == w.entries.len()
            &&& w.draft == h.draft
        }),
{
    let p = differs_from(pattern);
    let all = h.entries;
    let n = all.len() as int;
    let rest = if i < n {
        all.take(i) + all.skip(i + 1)
    } else {
        all
    };
    assert(others(all, pattern) == rest) by {
        if i < n {
            let b = all.skip(i + 1);
            assert forall|k: int| 0 <= k < i implies p(#[trigger] all.take(i)[k]) by {
                assert(all.take(i)[k] == all[k]);
            }
            assert forall|k: int| 0 <= k < b.len() implies p(#[trigger] b[k]) by {
                assert(b[k] == all[k + i + 1]);
            }
            lemma_filter_all(all.take(i), p);
            lemma_filter_all(b, p);
            assert(all =~= all.take(i).push(pattern) + b);
            assert(all.take(i).push(pattern).filter(p) == all.take(i)) by {
                reveal_with_fuel(Seq::filter, 2);
                assert(all.take(i).push(pattern).drop_last() =~= all.take(i));
            }
            Seq::filter_distributes_over_add(all.take(i).push(pattern), b, p);
        } else {
            assert forall|k: int| 0 <= k < n implies p(#[trigger] all[k]) by {
                assert(all.contains(all[k]));
            }
            lemma_filter_all(all, p);
        }
    }
    let kept = rest.push(pattern);
    if kept.len() > MAX_ENTRIES {
        assert(kept.skip(kept.len() - 100) =~= rest.skip(rest.len() - 99).push(pattern));
    }
}

/// An empty pattern is not kept.
pub proof fn law_push_nothing(h: HistoryView)
    ensures
        h.push(Seq::empty()) == h,
{
}

/// What is recalled: going back shows the entries from the latest to the oldest, where
/// it stays; going forward shows them the other way round, and then none.
pub proof fn law_recall(h: HistoryView, input: Seq<char>)
    requires
        0 <= h.cursor <= h.entries.len(),
    ensures
        ({
            let n = h.entries.len() as int;
            let (back, on) = (h.prev(input), h.next());
            &&& back.entries == h.entries && on.entries == h.entries
            &&& n > 0 ==> back.current() == Some(
                h.entries[if h.cursor > 0 {
                    h.cursor - 1
                } else {
                    0
                }],
            )
            &&& n == 0 ==> back == h
            &&& on.current() == if h.cursor + 1 < n {
                Some(h.entries[h.cursor + 1])
            } else {
                None
            }
            &&& n > 0 ==> back.draft == if h.cursor == n {
                input
            } else {
                h.draft
            }
            &&& on.draft == h.draft
            &&& h.reset().current() is None && h.reset().draft.len() == 0
            &&& h.reset().entries == h.entries
        }),
{
}

/// The patterns of a history file are its lines that are not empty, in their order; no
/// file has none.
#[verifier::rlimit(50)]
#[verifier::spinoff_prover]
pub proof fn law_loaded(a: Seq<char>, line: Seq<char>, rest: Seq<char>)
    requires
        !line.contains('\n'),
        a.len() == 0 || a.last() == '\n',
        line.len() > 0 ==> line.last() != '\r',
    ensures
        loaded(Some(a + line + seq!['\n'] + rest)) == loaded(Some(a)) + (if line.len() > 0 {
            seq![line]
        } else {
            Seq::empty()
        }) + loaded(Some(rest)),
        loaded(Some(Seq::empty())).len() == 0,
        loaded(None).len() == 0,
{
    let p = |l: Seq<char>| l.len() > 0;
    let here = line + seq!['\n'];
    let s = a + line + seq!['\n'] + rest;
    assert(s =~= a + (here + rest));
    text::lemma_lines_concat(a, here + rest, false, false);
    text::lemma_lines_concat(here, rest, false, false);
    let none = Seq::<char>::empty();
    text::lemma_line_end_at(line, none);
    assert(line + seq!['\n'] + none =~= here);
    assert(here.take(line.len() as int) =~= line);
    assert(here.skip(line.len() as int + 1) =~= none);
    assert(text::lines_of(none, false) =~= Seq::empty());
    let one = text::lines_of(here, false);
    assert(one =~= seq![line]);
    let la = text::lines_of(a, false);
    let lr = text::lines_of(rest, false);
    Seq::filter_distributes_over_add(one, lr, p);
    Seq::filter_distributes_over_add(la, one + lr, p);
    assert(one.filter(p) =~= if line.len() > 0 {
        seq![line]
    } else {
        Seq::empty()
    }) by {
        reveal_with_fuel(Seq::filter, 2);
        assert(one.drop_last() =~= Seq::empty());
    }
    assert(loaded(Some(none)) =~= Seq::empty()) by {
        reveal_with_fuel(Seq::filter, 2);
    }
    assert(loaded(Some(s)) =~= la.filter(p) + one.filter(p) + lr.filter(p));
}

/// The text of a history file: a line for each pattern, in their order.
pub proof fn law_saved(entries: Seq<Seq<char>>, pattern: Seq<char>)
    ensures
        saved(Seq::empty()).len() == 0,
        saved(entries.push(pattern)) == saved(entries) + pattern + seq!['\n'],
{
    assert(entries.push(pattern).drop_last() =~= entries);
}

} // verus!

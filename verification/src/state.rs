//! The state of the pager as a mathematical value, and what each key does to it.
use crate::buffer;
use crate::editor;
use crate::history;
use crate::input::Key;
use crate::regexp;
use crate::search;
use crate::wrap;
use vstd::prelude::*;

verus! {

/// What keys are used for.
#[derive(Debug, Clone, Copy, PartialEq, Eq, Structural)]
pub enum Mode {
    Normal,
    SearchInput,
    FilterInput,
    Follow,
    Help,
}

/// Where a search goes.
#[derive(Debug, Clone, Copy, PartialEq, Eq, Structural)]
pub enum SearchDir {
    Forward,
    Backward,
}

/// What is left to do for a key, as soon as the lines that it takes are read.
#[derive(Debug, Clone, Copy, PartialEq, Eq, Structural)]
pub enum Action {
    Idle,
    /// Search from a line on, by its number among those that are shown.
    Search { forward: bool, from: usize },
    /// Scroll down.
    Down { rows: usize },
    /// Scroll to the bottom.
    Bottom,
    /// Find the lines that pass the filter.
    Filter,
}

/// What comes after a key.
#[derive(Debug, Clone, Copy, PartialEq, Eq, Structural)]
pub enum Step {
    /// The key is dealt with.
    Continue,
    /// The pager ends.
    Quit,
    /// Line `n` has to be read, if there is one, before the key can be dealt with.
    NeedLine(usize),
    /// All lines have to be read before the key can be dealt with.
    NeedAll,
}

/// A number of a line that may be beyond all lines.
pub open spec fn line_number(n: int) -> usize {
    if n > usize::MAX {
        usize::MAX
    } else {
        n as usize
    }
}

/// Whether numbers rise.
pub open spec fn ascending(s: Seq<usize>) -> bool {
    forall|i: int, j: int| 0 <= i < j < s.len() ==> #[trigger] s[i] < #[trigger] s[j]
}

/// The first place from `k` on where rising numbers are not below `l`.
pub open spec fn below(s: Seq<usize>, l: int, k: int) -> int
    decreases s.len() - k,
{
    if k < 0 || k >= s.len() || s[k] >= l {
        k
    } else {
        below(s, l, k + 1)
    }
}

/// `below` parts the numbers that are less than `l` from the others.
pub proof fn lemma_below(s: Seq<usize>, l: int, k: int)
    requires
        ascending(s),
        0 <= k <= s.len(),
        forall|i: int| 0 <= i < k ==> #[trigger] s[i] < l,
    ensures
        k <= below(s, l, k) <= s.len(),
        forall|i: int| 0 <= i < below(s, l, k) ==> #[trigger] s[i] < l,
        forall|i: int| below(s, l, k) <= i < s.len() ==> #[trigger] s[i] >= l,
    decreases s.len() - k,
{
    if k < s.len() && s[k] < l {
        lemma_below(s, l, k + 1);
    }
}

/// The numbers of those of the first `n` lines that a pattern matches.
pub open spec fn matching(pattern: Seq<char>, lines: Seq<Seq<char>>, n: int) -> Seq<usize>
    decreases n,
{
    if n <= 0 {
        Seq::empty()
    } else if search::line_matches(pattern, lines[n - 1]) {
        matching(pattern, lines, n - 1).push((n - 1) as usize)
    } else {
        matching(pattern, lines, n - 1)
    }
}

/// A filter lets through exactly the lines that match, in their order.
pub proof fn law_matching(pattern: Seq<char>, lines: Seq<Seq<char>>, n: int)
    requires
        0 <= n <= lines.len() <= usize::MAX,
    ensures
        ({
            let m = matching(pattern, lines, n);
            &&& m.len() <= n
            &&& forall|k: int|
                0 <= k < m.len() ==> (#[trigger] m[k]) < n && search::line_matches(
                    pattern,
                    lines[m[k] as int],
                )
            &&& ascending(m)
            &&& forall|l: int|
                0 <= l < n && search::line_matches(pattern, #[trigger] lines[l]) ==> m.contains(
                    l as usize,
                )
        }),
    decreases n,
{
    if n > 0 {
        law_matching(pattern, lines, n - 1);
        let before = matching(pattern, lines, n - 1);
        let m = matching(pattern, lines, n);
        assert forall|l: int|
            0 <= l < n && search::line_matches(pattern, #[trigger] lines[l]) implies m.contains(
            l as usize,
        ) by {
            if l < n - 1 {
                let k = choose|k: int| 0 <= k < before.len() && before[k] == l as usize;
                assert(m[k] == l as usize);
            } else {
                assert(m[m.len() - 1] == l as usize);
            }
        }
    }
}

/// What a pager holds.
#[verifier::ext_equal]
pub struct PagerView {
    pub buffer: buffer::BufferView,
    /// The first line on the screen; with a filter, counted among the lines that
    /// pass it.
    pub top: int,
    /// The first column on the screen.
    pub left: int,
    pub wrap: bool,
    pub search: Option<Seq<char>>,
    pub dir: SearchDir,
    /// The line of the match that was found last.
    pub current: Option<int>,
    pub mode: Mode,
    pub search_input: editor::EditorView,
    pub filter_input: editor::EditorView,
    pub filter: Option<Seq<char>>,
    /// The lines that pass the filter.
    pub filtered: Seq<usize>,
    pub history: history::HistoryView,
    pub width: u16,
    pub height: u16,
    pub follow: bool,
    pub raw: bool,
    pub status: Option<Seq<char>>,
    pub filename: Option<Seq<char>>,
    pub pending: Action,
}

impl PagerView {
    /// Rows that lines are shown in: all but the last.
    pub open spec fn content_height(self) -> int {
        if self.height > 1 {
            self.height - 1
        } else {
            1
        }
    }

    /// Half of these rows, at least one.
    pub open spec fn half_page(self) -> usize {
        if self.content_height() / 2 > 1 {
            (self.content_height() / 2) as usize
        } else {
            1
        }
    }

    /// All of these rows but one, at least one.
    pub open spec fn full_page(self) -> usize {
        if self.content_height() > 2 {
            (self.content_height() - 1) as usize
        } else {
            1
        }
    }

    /// The lines that are shown: those that pass the filter, if there is one.
    pub open spec fn shown(self) -> buffer::BufferView {
        if self.filter is Some {
            self.buffer.only(self.filtered)
        } else {
            self.buffer
        }
    }

    /// Number of lines that can be shown.
    pub open spec fn total(self) -> int {
        self.shown().lines.len() as int
    }

    /// The number among the lines that are shown of the first one that is line `l` of
    /// the buffer or comes after it.
    pub open spec fn number_of(self, l: int) -> int {
        if self.filter is Some {
            below(self.filtered, l, 0)
        } else {
            l
        }
    }

    /// The screen is not empty, and the lines that are referred to exist.
    pub open spec fn wf(self) -> bool {
        let n = self.buffer.lines.len();
        &&& self.width >= 1
        &&& self.height >= 1
        &&& n <= usize::MAX
        &&& self.buffer.has_source || self.buffer.finished
        &&& ascending(self.filtered)
        &&& self.filtered.len() <= n
        &&& forall|k: int|
            0 <= k < self.filtered.len() ==> (#[trigger] self.filtered[k]) < n
        &&& 0 <= self.top
        &&& self.top == 0 || self.top < if self.pending is Filter {
            n as int
        } else {
            self.total()
        }
        &&& self.current matches Some(l) ==> 0 <= l < n
    }

    /// The line that is shown as number `n`, if there is one.
    pub open spec fn line_at(self, n: int) -> Option<int> {
        let line: int = if self.filter is Some {
            if 0 <= n < self.filtered.len() {
                self.filtered[n] as int
            } else {
                -1
            }
        } else {
            n
        };
        if 0 <= line < self.buffer.lines.len() {
            Some(line)
        } else {
            None
        }
    }

    /// The lines as they are shown when they are wrapped.
    pub open spec fn page(self) -> wrap::Page {
        wrap::page(self.shown(), self.width as usize, self.raw)
    }

    /// The last lines on the screen.
    pub open spec fn bottom(self) -> PagerView {
        PagerView {
            top: if self.wrap {
                self.page().bottom(self.content_height())
            } else if self.total() > self.content_height() {
                self.total() - self.content_height()
            } else {
                0
            },
            ..self
        }
    }

    /// The top line that is used for `target`: the last lines fill the screen.
    pub open spec fn clamped(self, target: int) -> int {
        let h = self.content_height();
        if self.total() <= h {
            0
        } else if target > self.total() - h && (self.filter is Some || self.buffer.finished) {
            self.total() - h
        } else {
            target
        }
    }

    /// The top line after scrolling down, or the line that has to be read first. With
    /// wrapping, the bottom is not left.
    pub open spec fn down(self, rows: int) -> Result<int, int> {
        let h = self.content_height();
        if self.wrap {
            match self.page().down(self.top, rows) {
                Ok(t) => match self.page().clamp(t, h) {
                    Ok(c) if c < self.top && self.top == self.bottom().top => Ok(self.top),
                    r => r,
                },
                Err(n) => Err(n),
            }
        } else {
            let target = self.top + rows;
            if self.filter is None && self.buffer.lines.len() <= target + h
                && self.buffer.can_read() {
                Err(target + h)
            } else {
                Ok(self.clamped(target))
            }
        }
    }

    /// The top line after scrolling up.
    pub open spec fn up(self, rows: int) -> int {
        if self.wrap {
            self.page().up(self.top, rows)
        } else if rows < self.top {
            self.top - rows
        } else {
            0
        }
    }

    /// Do what is left to do, or say what has to be read first.
    pub open spec fn advanced(self) -> (PagerView, Step) {
        let idle = PagerView { pending: Action::Idle, ..self };
        match self.pending {
            Action::Idle => (self, Step::Continue),
            Action::Search { forward, from } => {
                let p = self.search->0;
                match search::match_from(p, self.shown().lines, from as int, forward) {
                    Some(k) => (
                        PagerView { current: self.line_at(k), top: k, ..idle },
                        Step::Continue,
                    ),
                    None => match search::awaited_line(self.shown(), from as int, forward) {
                        Some(n) => (
                            PagerView {
                                pending: Action::Search {
                                    forward,
                                    from: if forward {
                                        n as usize
                                    } else {
                                        from
                                    },
                                },
                                ..self
                            },
                            Step::NeedLine(n as usize),
                        ),
                        None => (
                            PagerView { status: Some("Pattern not found"@), ..idle },
                            Step::Continue,
                        ),
                    },
                }
            },
            Action::Down { rows } => match self.down(rows as int) {
                Ok(top) => (PagerView { top, ..idle }, Step::Continue),
                Err(n) => (self, Step::NeedLine(line_number(n))),
            },
            Action::Bottom => {
                if self.buffer.can_read() {
                    (self, Step::NeedAll)
                } else {
                    (idle.bottom(), Step::Continue)
                }
            },
            Action::Filter => {
                if self.buffer.can_read() {
                    (self, Step::NeedAll)
                } else {
                    (
                        PagerView {
                            filtered: matching(
                                self.filter->0,
                                self.buffer.lines,
                                self.buffer.lines.len() as int,
                            ),
                            top: 0,
                            ..idle
                        },
                        Step::Continue,
                    )
                }
            },
        }
    }

    /// Begin a search for the pattern among the lines that are shown, from the last
    /// match or else the top line.
    pub open spec fn searched(self, forward: bool) -> PagerView {
        match self.search {
            None => self,
            Some(_) => {
                let from: int = match self.current {
                    Some(l) => {
                        if forward {
                            self.number_of(l + 1)
                        } else {
                            self.number_of(l)
                        }
                    },
                    None => self.top,
                };
                PagerView { pending: Action::Search { forward, from: from as usize }, ..self }
            },
        }
    }

    /// Begin to type a pattern to search for.
    pub open spec fn typing_search(self, dir: SearchDir) -> PagerView {
        PagerView {
            dir,
            mode: Mode::SearchInput,
            search_input: editor::EditorView::empty(),
            history: self.history.reset(),
            ..self
        }
    }

    /// Begin to scroll down.
    pub open spec fn scrolling_down(self, rows: usize) -> PagerView {
        PagerView { pending: Action::Down { rows }, ..self }
    }

    /// Scroll up.
    pub open spec fn scrolled_up(self, rows: usize) -> PagerView {
        PagerView { top: self.up(rows as int), ..self }
    }

    /// What a key does in normal mode, and whether it ends the pager.
    pub open spec fn normal_key(self, key: Key) -> (PagerView, bool) {
        let v = PagerView { status: None, ..self };
        match key {
            Key::Char('q') | Key::Ctrl('c') | Key::Escape => (v, true),
            Key::Char('j') | Key::Down | Key::Enter => (v.scrolling_down(1), false),
            Key::Char('k') | Key::Up => (v.scrolled_up(1), false),
            Key::Char('d') | Key::Ctrl('d') => (v.scrolling_down(v.half_page()), false),
            Key::Char('u') | Key::Ctrl('u') => (v.scrolled_up(v.half_page()), false),
            Key::Char(' ') | Key::PageDown | Key::Ctrl('f') => (
                v.scrolling_down(v.full_page()),
                false,
            ),
            Key::Char('b') | Key::PageUp | Key::Ctrl('b') => (
                v.scrolled_up(v.full_page()),
                false,
            ),
            Key::Char('g') | Key::Home => (PagerView { top: 0, left: 0, ..v }, false),
            Key::Char('G') | Key::End => (PagerView { pending: Action::Bottom, ..v }, false),
            Key::Right => (
                PagerView {
                    left: if v.wrap {
                        v.left
                    } else {
                        v.left + 8
                    },
                    ..v
                },
                false,
            ),
            Key::Left => (
                PagerView {
                    left: if v.wrap {
                        v.left
                    } else if v.left < 8 {
                        0
                    } else {
                        v.left - 8
                    },
                    ..v
                },
                false,
            ),
            Key::Char('/') => (v.typing_search(SearchDir::Forward), false),
            Key::Char('?') => (v.typing_search(SearchDir::Backward), false),
            Key::Char('n') => (v.searched(v.dir == SearchDir::Forward), false),
            Key::Char('N') => (v.searched(v.dir == SearchDir::Backward), false),
            Key::Char('&') => (
                PagerView {
                    mode: Mode::FilterInput,
                    filter_input: editor::EditorView::empty(),
                    ..v
                },
                false,
            ),
            Key::Char('w') => (PagerView { wrap: !v.wrap, left: 0, ..v }, false),
            Key::Char('F') => (
                PagerView { mode: Mode::Follow, follow: true, pending: Action::Bottom, ..v },
                false,
            ),
            Key::Char('h') => (PagerView { mode: Mode::Help, ..v }, false),
            _ => (v, false),
        }
    }

    /// What a pattern to search for does that was typed in. `refused` tells what is
    /// wrong with it, if anything is.
    pub open spec fn search_entered(self, refused: Option<Seq<char>>) -> PagerView {
        let pattern = self.search_input.content();
        let v = PagerView { mode: Mode::Normal, history: self.history.push(pattern), ..self };
        match refused {
            None => PagerView { search: Some(pattern), current: None, ..v }.searched(
                v.dir == SearchDir::Forward,
            ),
            Some(why) => PagerView { status: Some(why), ..v },
        }
    }

    /// What a key does while a pattern to search for is typed.
    pub open spec fn search_input_key(self, key: Key, refused: Option<Seq<char>>) -> PagerView {
        let e = self.search_input;
        match key {
            Key::Escape | Key::Ctrl('c') => PagerView { mode: Mode::Normal, ..self },
            Key::Enter => {
                if e.content().len() == 0 {
                    PagerView { mode: Mode::Normal, ..self }
                } else {
                    self.search_entered(refused)
                }
            },
            Key::Up => {
                let h = self.history.prev(e.content());
                match h.current() {
                    Some(entry) => PagerView {
                        history: h,
                        search_input: editor::EditorView::of(entry),
                        ..self
                    },
                    None => self,
                }
            },
            Key::Down => {
                let h = self.history.next();
                PagerView {
                    history: h,
                    search_input: editor::EditorView::of(
                        match h.current() {
                            Some(entry) => entry,
                            None => h.draft,
                        },
                    ),
                    ..self
                }
            },
            _ => PagerView { search_input: edited(e, key), ..self },
        }
    }

    /// What a filter does that was typed in. `refused` tells what is wrong with it,
    /// if anything is.
    pub open spec fn filter_entered(self, refused: Option<Seq<char>>) -> PagerView {
        let v = PagerView { mode: Mode::Normal, ..self };
        match refused {
            None => PagerView {
                filter: Some(self.filter_input.content()),
                filtered: Seq::empty(),
                pending: Action::Filter,
                ..v
            },
            Some(why) => PagerView { status: Some(why), ..v },
        }
    }

    /// What a key does while a filter is typed.
    pub open spec fn filter_input_key(self, key: Key, refused: Option<Seq<char>>) -> PagerView {
        let e = self.filter_input;
        match key {
            Key::Escape | Key::Ctrl('c') => PagerView { mode: Mode::Normal, ..self },
            Key::Enter => {
                if e.content().len() == 0 {
                    PagerView {
                        mode: Mode::Normal,
                        filter: None,
                        filtered: Seq::empty(),
                        ..self
                    }
                } else {
                    self.filter_entered(refused)
                }
            },
            _ => PagerView { filter_input: edited(e, key), ..self },
        }
    }

    /// What a key does at once, and whether it ends the pager.
    pub open spec fn begun(self, key: Key, refused: Option<Seq<char>>) -> (PagerView, bool) {
        match self.mode {
            Mode::Normal => self.normal_key(key),
            Mode::SearchInput => (self.search_input_key(key, refused), false),
            Mode::FilterInput => (self.filter_input_key(key, refused), false),
            Mode::Help => (
                match key {
                    Key::Char('h') | Key::Char('q') | Key::Escape => PagerView {
                        mode: Mode::Normal,
                        ..self
                    },
                    _ => self,
                },
                false,
            ),
            Mode::Follow => (self, is_quit_key(key)),
        }
    }

    /// What a key does. `refused` tells what is wrong with a pattern that it
    /// completes, if anything is.
    pub open spec fn after_key(self, key: Key, refused: Option<Seq<char>>) -> (PagerView, Step) {
        let (v, quit) = self.begun(key, refused);
        if quit {
            (v, Step::Quit)
        } else {
            v.advanced()
        }
    }

    /// The pattern that a key completes; empty if it does not.
    pub open spec fn completed(self, key: Key) -> Seq<char> {
        if key is Enter && self.mode == Mode::SearchInput {
            self.search_input.content()
        } else if key is Enter && self.mode == Mode::FilterInput {
            self.filter_input.content()
        } else {
            Seq::empty()
        }
    }
}

/// Whether a key ends the pager in follow mode.
pub open spec fn is_quit_key(key: Key) -> bool {
    key == Key::Char('q') || key == Key::Escape || key == Key::Ctrl('c')
}

/// What a key does to a line that is typed.
pub open spec fn edited(e: editor::EditorView, key: Key) -> editor::EditorView {
    match key {
        Key::Backspace => e.backspace(),
        Key::Delete => e.delete(),
        Key::Left => e.left(),
        Key::Right => e.right(),
        Key::Home => e.home(),
        Key::End => e.end(),
        Key::Char(c) => e.insert(c),
        _ => e,
    }
}

/// Whether `refused` may be what is wrong with a pattern: nothing is wrong with a
/// literal one, and with others only what their expression may be refused with.
pub open spec fn may_refuse(pattern: Seq<char>, refused: Option<Seq<char>>) -> bool {
    match refused {
        None => true,
        Some(e) => !search::literal(pattern) && exists|why: Seq<char>|
            e == #[trigger] search::invalid_regex(why) && regexp::refuses(
                search::expression(pattern),
                why,
            ),
    }
}

/// Keys that do the same in normal mode.
pub proof fn law_same_keys(v: PagerView)
    ensures
        v.normal_key(Key::Down) == v.normal_key(Key::Char('j')),
        v.normal_key(Key::Enter) == v.normal_key(Key::Char('j')),
        v.normal_key(Key::Up) == v.normal_key(Key::Char('k')),
        v.normal_key(Key::Ctrl('d')) == v.normal_key(Key::Char('d')),
        v.normal_key(Key::Ctrl('u')) == v.normal_key(Key::Char('u')),
        v.normal_key(Key::PageDown) == v.normal_key(Key::Char(' ')),
        v.normal_key(Key::PageUp) == v.normal_key(Key::Char('b')),
        v.normal_key(Key::Home) == v.normal_key(Key::Char('g')),
        v.normal_key(Key::End) == v.normal_key(Key::Char('G')),
        v.normal_key(Key::Escape) == v.normal_key(Key::Char('q')),
{
}

/// The pager ends exactly on `q`, Escape and Ctrl-C, and only in normal and in follow
/// mode: elsewhere these keys have other uses.
pub proof fn law_quit(v: PagerView, key: Key, refused: Option<Seq<char>>)
    ensures
        v.after_key(key, refused).1 is Quit <==> is_quit_key(key) && (v.mode == Mode::Normal
            || v.mode == Mode::Follow),
{
}

/// Whenever lines are asked for, there are lines to read, and what was asked for is
/// not among those that were. Apart from the place that a search has reached, the
/// state stays as it is meanwhile.
pub proof fn law_need(v: PagerView)
    requires
        v.wf(),
    ensures
        ({
            let (next, step) = v.advanced();
            &&& step matches Step::NeedLine(n) ==> n >= v.buffer.lines.len() && v.buffer.can_read()
            &&& step is NeedAll ==> v.buffer.can_read()
            &&& step is NeedLine || step is NeedAll ==> next == (PagerView {
                pending: next.pending,
                ..v
            })
            &&& step is Continue ==> next.pending is Idle && next.buffer == v.buffer
        }),
{
    if let Action::Down { rows } = v.pending {
        if v.wrap {
            v.page().law_down(v.top, rows as int);
            if let Ok(t) = v.page().down(v.top, rows as int) {
                v.page().law_clamp(t, v.content_height());
            }
        }
    }
}

/// It makes no difference when lines are read: going on after lines were asked for
/// and more were read does what would have been done with all of them at once.
pub proof fn law_reading_late(v: PagerView, more: Seq<Seq<char>>, finished: bool)
    requires
        v.buffer.can_read(),
        v.advanced().1 is NeedLine || v.advanced().1 is NeedAll,
        v.buffer.lines.len() + more.len() <= usize::MAX,
    ensures
        ({
            let buffer = buffer::BufferView {
                lines: v.buffer.lines + more,
                has_source: true,
                finished,
            };
            PagerView { buffer, ..v.advanced().0 }.advanced() == PagerView {
                buffer,
                ..v
            }.advanced()
        }),
{
    let buffer = buffer::BufferView {
        lines: v.buffer.lines + more,
        has_source: true,
        finished,
    };
    if let Action::Search { forward, from } = v.pending {
        let p = v.search->0;
        if forward {
            search::law_search_resumes(p, v.buffer.lines, more, from as int);
        }
    }
}

/// Without wrapping, scrolling down stays within the lines: the last of them fill the
/// screen, or all of them fit on it.
pub proof fn law_down_stays(v: PagerView, rows: int)
    requires
        !v.wrap,
        v.height >= 1,
        v.top >= 0,
        rows >= 0,
        v.buffer.has_source || v.buffer.finished,
    ensures
        v.down(rows) matches Ok(t) ==> {
            &&& 0 <= t
            &&& t == 0 || t + v.content_height() <= v.total()
            &&& t <= v.top + rows
        },
{
}

/// With wrapping, scrolling down stays on the lines, and once all are read, they fill
/// the screen, begin with the first, or are the last ones.
pub proof fn law_wrapped_down_stays(v: PagerView, rows: int)
    requires
        v.wrap,
        v.wf(),
        !(v.pending is Filter),
        rows >= 0,
    ensures
        v.down(rows) matches Ok(t) ==> {
            &&& 0 <= t
            &&& t == 0 || t < v.total()
            &&& v.shown().finished ==> t == 0 || t == v.bottom().top || v.page().rows_from(t)
                >= v.content_height()
        },
{
    v.page().law_down(v.top, rows);
    if let Ok(t) = v.page().down(v.top, rows) {
        v.page().law_clamp(t, v.content_height());
    }
}

/// With wrapping, scrolling down leaves the top line, however many rows it takes, as
/// long as the lines below it fill the screen.
pub proof fn law_wrapped_down_moves(v: PagerView, rows: int)
    requires
        v.wrap,
        v.wf(),
        !(v.pending is Filter),
        rows >= 1,
        v.top + 1 < v.total(),
        v.page().rows_from(v.top + 1) >= v.content_height(),
    ensures
        v.down(rows) matches Ok(t) ==> t > v.top,
{
    v.page().law_down(v.top, rows);
    if let Ok(d) = v.page().down(v.top, rows) {
        v.page().law_clamp(d, v.content_height());
        if let Ok(t) = v.page().clamp(d, v.content_height()) {
            if t <= v.top {
                v.page().lemma_rows_from_falls(t + 1, v.top + 1);
            }
        }
    }
}

/// Without wrapping, scrolling up undoes scrolling down, as long as the lines do not
/// end before.
pub proof fn law_up_after_down(v: PagerView, rows: int)
    requires
        !v.wrap,
        v.height >= 1,
        v.top >= 0,
        rows >= 0,
        v.top + rows + v.content_height() <= v.total(),
        v.down(rows) is Ok,
    ensures
        v.down(rows)->Ok_0 == v.top + rows,
        (PagerView { top: v.down(rows)->Ok_0, ..v }).up(rows) == v.top,
{
}

/// At the bottom the last line is on the screen, and nothing is below it unless all
/// lines fit. With wrapping the rows to the end fit, or the last line alone is shown as
/// far as it does, and there is no room for one line more.
pub proof fn law_bottom(v: PagerView)
    requires
        v.width >= 1,
        v.height >= 1,
    ensures
        ({
            let t = v.bottom().top;
            let h = v.content_height();
            if v.wrap {
                &&& v.total() == 0 || t == v.total() - 1 || v.page().rows_from(t) <= h
                &&& t == 0 || v.page().rows_from(t - 1) > h
            } else {
                &&& t + h >= v.total()
                &&& t == 0 || t + h == v.total()
            }
        }),
        v.bottom().top == 0 || 0 < v.bottom().top < v.total(),
{
    if v.wrap {
        v.page().law_bottom(v.content_height());
    }
}

/// From the bottom there is no scrolling down.
pub proof fn law_bottom_stays(v: PagerView, rows: int)
    requires
        v.wf(),
        !v.buffer.can_read(),
        rows >= 0,
    ensures
        v.bottom().down(rows) == Ok::<int, int>(v.bottom().top),
{
    let b = v.bottom();
    if v.wrap {
        let h = v.content_height();
        v.page().law_bottom(h);
        v.page().law_down(b.top, rows);
        if let Ok(t) = v.page().down(b.top, rows) {
            v.page().law_clamp(t, h);
            v.page().law_bottom_is_last(t, h);
        }
    }
}

/// The lines that are shown are lines of the buffer, in their order.
proof fn lemma_line_at(v: PagerView)
    requires
        v.wf(),
    ensures
        forall|n: int|
            #![trigger v.line_at(n)]
            0 <= n < v.total() ==> (v.line_at(n) matches Some(l) && 0 <= l < v.buffer.lines.len()
                && v.buffer.lines[l] == v.shown().lines[n]),
        forall|n: int| #![trigger v.line_at(n)] !(0 <= n < v.total()) ==> v.line_at(n) is None,
        forall|m: int, n: int|
            #![trigger v.line_at(m), v.line_at(n)]
            0 <= m < n < v.total() ==> v.line_at(m)->0 < v.line_at(n)->0,
{
    if v.filter is Some {
        assert forall|n: int| #![trigger v.line_at(n)] 0 <= n < v.total() implies (v.line_at(
            n,
        ) matches Some(l) && 0 <= l < v.buffer.lines.len() && v.buffer.lines[l]
            == v.shown().lines[n]) by {
            assert(v.filtered[n] < v.buffer.lines.len());
        }
        assert forall|m: int, n: int|
            #![trigger v.line_at(m), v.line_at(n)]
            0 <= m < n < v.total() implies v.line_at(m)->0 < v.line_at(n)->0 by {
            assert(v.filtered[m] < v.filtered[n]);
            assert(v.filtered[n] < v.buffer.lines.len());
        }
    }
}

/// Lines before `number_of(l)` come before line `l` of the buffer, and the others do
/// not.
proof fn lemma_number_of(v: PagerView, l: int)
    requires
        v.wf(),
        0 <= l <= v.buffer.lines.len(),
    ensures
        0 <= v.number_of(l) <= v.total(),
        forall|n: int|
            #![trigger v.line_at(n)]
            0 <= n < v.total() ==> (n < v.number_of(l) <==> v.line_at(n)->0 < l),
{
    lemma_line_at(v);
    lemma_below(v.filtered, l, 0);
    if v.filter is Some {
        assert forall|n: int| #![trigger v.line_at(n)] 0 <= n < v.total() implies (n < v.number_of(
            l,
        ) <==> v.line_at(n)->0 < l) by {
            assert(v.line_at(n) == Some(v.filtered[n] as int));
        }
    }
}

/// Where a search begins is among the lines that are shown, or just after them.
proof fn lemma_searched(v: PagerView, forward: bool)
    requires
        v.wf(),
        !(v.pending is Filter),
        v.search is Some,
    ensures
        v.searched(forward).pending matches Action::Search { forward: f, from } && f == forward
            && from <= v.total() && (v.current is None ==> from == v.top) && (v.current matches Some(
            l,
        ) ==> from == v.number_of(
            if forward {
                l + 1
            } else {
                l
            },
        )),
{
    if let Some(l) = v.current {
        lemma_number_of(v, l);
        lemma_number_of(v, l + 1);
    }
}

/// A search ends on the line that it found, which is then the first on the screen, and
/// says so if it found none, without moving. `n` and `N` leave the line of the last
/// match.
pub proof fn law_search(v: PagerView, forward: bool)
    requires
        v.wf(),
        v.search is Some,
        v.pending is Idle,
        v.searched(forward).advanced().1 is Continue,
    ensures
        ({
            let next = v.searched(forward).advanced().0;
            ||| {
                &&& next.status == Some("Pattern not found"@)
                &&& next.top == v.top && next.current == v.current
            }
            ||| {
                &&& next.current is Some
                &&& next.line_at(next.top) == next.current
                &&& next.status == v.status
                &&& search::line_matches(v.search->0, v.buffer.lines[next.current->0])
                &&& v.current matches Some(l) ==> if forward {
                    next.current->0 > l
                } else {
                    next.current->0 < l
                }
            }
        }),
{
    let p = v.search->0;
    lemma_line_at(v);
    lemma_searched(v, forward);
    if let Some(l) = v.current {
        lemma_number_of(v, l);
        lemma_number_of(v, l + 1);
    }
    if let Action::Search { from, .. } = v.searched(forward).pending {
        search::law_next_match(p, v.shown().lines, from as int);
        search::law_prev_match(p, v.shown().lines, from as int);
        if let Some(k) = search::match_from(p, v.shown().lines, from as int, forward) {
            assert(v.line_at(k) is Some);
        }
    }
}

/// A search finds the nearest line that matches: no line that is shown is passed over
/// that does.
pub proof fn law_search_nearest(v: PagerView, forward: bool, n: int)
    requires
        v.wf(),
        v.search is Some,
        v.pending is Idle,
        v.current is Some,
        v.searched(forward).advanced().1 is Continue,
        v.searched(forward).advanced().0.current != v.current,
        v.line_at(n) is Some,
        ({
            let here = v.current->0;
            let there = v.searched(forward).advanced().0.current->0;
            if forward {
                here < v.line_at(n)->0 < there
            } else {
                there < v.line_at(n)->0 < here
            }
        }),
    ensures
        !search::line_matches(v.search->0, v.buffer.lines[v.line_at(n)->0]),
{
    let p = v.search->0;
    let here = v.current->0;
    lemma_line_at(v);
    lemma_searched(v, forward);
    lemma_number_of(v, here);
    lemma_number_of(v, here + 1);
    if let Action::Search { from, .. } = v.searched(forward).pending {
        search::law_next_match(p, v.shown().lines, from as int);
        search::law_prev_match(p, v.shown().lines, from as int);
        if let Some(k) = search::match_from(p, v.shown().lines, from as int, forward) {
            assert(v.line_at(k) is Some);
            assert(0 <= n < v.total());
            assert(v.shown().lines[n] == v.buffer.lines[v.line_at(n)->0]);
        }
    }
}

/// Searching back from the next match returns to the match before, and the other way
/// round, if that is among the lines that are shown.
pub proof fn law_search_returns(v: PagerView, forward: bool, n: int)
    requires
        v.wf(),
        v.search is Some,
        v.pending is Idle,
        v.current is Some,
        v.line_at(n) == v.current,
        search::line_matches(v.search->0, v.buffer.lines[v.current->0]),
        v.searched(forward).advanced().1 is Continue,
        v.searched(forward).advanced().0.current != v.current,
    ensures
        ({
            let (back, step) = v.searched(forward).advanced().0.searched(!forward).advanced();
            &&& step is Continue
            &&& back.current == v.current
            &&& back.top == n
        }),
{
    let p = v.search->0;
    let here = v.current->0;
    let lines = v.shown().lines;
    lemma_line_at(v);
    lemma_searched(v, forward);
    lemma_number_of(v, here);
    lemma_number_of(v, here + 1);
    assert(0 <= n < v.total());
    assert(v.number_of(here) == n) by {
        if v.number_of(here) < n {
            assert(v.line_at(v.number_of(here)) is Some);
        }
    }
    assert(v.number_of(here + 1) == n + 1) by {
        if v.number_of(here + 1) > n + 1 {
            assert(v.line_at(n + 1) is Some);
        }
    }
    let from = if forward {
        n + 1
    } else {
        n
    };
    search::law_next_match(p, lines, from);
    search::law_prev_match(p, lines, from);
    let w = v.searched(forward).advanced().0;
    let k = search::match_from(p, lines, from, forward)->0;
    assert(search::match_from(p, lines, from, forward) is Some);
    assert(v.line_at(k) is Some);
    let there = v.line_at(k)->0;
    assert(w.current == Some(there));
    lemma_number_of(v, there);
    lemma_number_of(v, there + 1);
    assert(v.number_of(there) == k) by {
        if v.number_of(there) < k {
            assert(v.line_at(v.number_of(there)) is Some);
        }
    }
    assert(v.number_of(there + 1) == k + 1) by {
        if v.number_of(there + 1) > k + 1 {
            assert(v.line_at(k + 1) is Some);
        }
    }
    assert(w.number_of(there) == v.number_of(there));
    assert(w.number_of(there + 1) == v.number_of(there + 1));
    search::law_prev_match(p, lines, k);
    search::law_next_match(p, lines, k + 1);
    assert(lines[n] == v.buffer.lines[here]);
}

/// A filter shows exactly the lines that match it.
pub proof fn law_filter(v: PagerView)
    requires
        v.pending is Filter,
        v.filter is Some,
        v.buffer.lines.len() <= usize::MAX,
        v.advanced().1 is Continue,
    ensures
        ({
            let shown = v.advanced().0;
            &&& forall|n: int|
                0 <= n < shown.total() ==> (#[trigger] shown.line_at(n) matches Some(l)
                    && search::line_matches(v.filter->0, v.buffer.lines[l]))
            &&& forall|l: int|
                0 <= l < v.buffer.lines.len() && search::line_matches(
                    v.filter->0,
                    #[trigger] v.buffer.lines[l],
                ) ==> exists|n: int|
                    0 <= n < shown.total() && #[trigger] shown.line_at(n) == Some(l)
        }),
{
    let shown = v.advanced().0;
    let p = v.filter->0;
    let len = v.buffer.lines.len() as int;
    law_matching(p, v.buffer.lines, len);
    assert forall|n: int| 0 <= n < shown.total() implies (#[trigger] shown.line_at(n) matches Some(l)
        && search::line_matches(v.filter->0, v.buffer.lines[l])) by {
        assert(shown.filtered[n] < len);
    }
    assert forall|l: int|
        0 <= l < len && search::line_matches(p, #[trigger] v.buffer.lines[l]) implies exists|n: int|
        0 <= n < shown.total() && #[trigger] shown.line_at(n) == Some(l) by {
        assert(shown.filtered.contains(l as usize));
        let n = choose|n: int| 0 <= n < shown.filtered.len() && shown.filtered[n] == l as usize;
        assert(shown.line_at(n) == Some(l));
    }
}

/// The help screen leaves everything as it was, but for a message in the status bar.
pub proof fn law_help_returns(v: PagerView, refused: Option<Seq<char>>)
    requires
        v.mode == Mode::Normal,
        v.pending is Idle,
    ensures
        v.after_key(Key::Char('h'), refused).0.after_key(Key::Char('h'), refused).0 == (PagerView {
            status: None,
            ..v
        }),
{
}

/// Leaving the input of a pattern leaves the search and the lines on the screen as
/// they were.
pub proof fn law_cancelled_input(v: PagerView, refused: Option<Seq<char>>)
    requires
        v.mode == Mode::Normal,
        v.pending is Idle,
    ensures
        ({
            let s = v.after_key(Key::Char('/'), refused).0.after_key(Key::Escape, refused).0;
            let f = v.after_key(Key::Char('&'), refused).0.after_key(Key::Escape, refused).0;
            &&& s.mode == Mode::Normal && f.mode == Mode::Normal
            &&& s.search == v.search && s.top == v.top && s.filter == v.filter
            &&& s.history.entries == v.history.entries
            &&& f.search == v.search && f.top == v.top && f.filter == v.filter && f.filtered
                == v.filtered
        }),
{
}

/// Scrolling right and then left comes back to the same columns.
pub proof fn law_left_after_right(v: PagerView)
    requires
        v.left >= 0,
    ensures
        v.normal_key(Key::Right).0.normal_key(Key::Left).0.left == v.left,
{
}

/// Wrapping is switched on and off again.
pub proof fn law_wrap_toggles(v: PagerView)
    ensures
        v.normal_key(Key::Char('w')).0.normal_key(Key::Char('w')).0.wrap == v.wrap,
        v.normal_key(Key::Char('w')).0.left == 0,
{
}

/// The rows that lines are shown in, of a screen of `height` rows.
pub open spec fn rows_for_lines(height: int) -> int {
    if height <= 2 {
        1
    } else {
        height - 1
    }
}

/// The line of the buffer that comes `n`-th among those that are shown.
pub open spec fn nth_shown(v: PagerView, n: int) -> int {
    match v.filter {
        Some(_) => v.filtered[n] as int,
        None => n,
    }
}

/// How many lines are shown.
pub open spec fn count_shown(v: PagerView) -> int {
    match v.filter {
        Some(_) => v.filtered.len() as int,
        None => v.buffer.lines.len() as int,
    }
}

/// Rows that a key scrolls down by: a line, half a screen, or a screen but for one
/// row. 0 for keys that do not.
pub open spec fn rows_down(key: Key, height: int) -> int {
    let h = rows_for_lines(height);
    if key == Key::Char('j') || key == Key::Down || key == Key::Enter {
        1
    } else if key == Key::Char('d') || key == Key::Ctrl('d') {
        if h < 2 {
            1
        } else {
            h / 2
        }
    } else if key == Key::Char(' ') || key == Key::PageDown || key == Key::Ctrl('f') {
        if h < 2 {
            1
        } else {
            h - 1
        }
    } else {
        0
    }
}

/// Rows that a key scrolls up by; 0 for keys that do not.
pub open spec fn rows_up(key: Key, height: int) -> int {
    if key == Key::Char('k') || key == Key::Up {
        1
    } else if key == Key::Char('u') || key == Key::Ctrl('u') {
        rows_down(Key::Char('d'), height)
    } else if key == Key::Char('b') || key == Key::PageUp || key == Key::Ctrl('b') {
        rows_down(Key::Char(' '), height)
    } else {
        0
    }
}

/// Without wrapping, scrolling down goes on by as many lines as were asked for, and no
/// further than to where the last line is at the bottom of the screen. As long as
/// there is a line below the screen it moves. Lines are asked for where those that
/// were read may not reach below the screen.
pub proof fn law_down_exact(v: PagerView, rows: int)
    requires
        v.wf(),
        !v.wrap,
        !(v.pending is Filter),
        rows >= 0,
    ensures
        ({
            let h = rows_for_lines(v.height as int);
            let last_top = if count_shown(v) > h {
                count_shown(v) - h
            } else {
                0
            };
            match v.down(rows) {
                Ok(t) => {
                    &&& t <= last_top && t <= v.top + rows
                    &&& t == last_top || t == v.top + rows
                    &&& rows >= 1 && v.top + h < count_shown(v) ==> t > v.top
                },
                Err(n) => {
                    &&& v.filter is None && v.buffer.has_source && !v.buffer.finished
                    &&& n == v.top + rows + h
                    &&& n >= v.buffer.lines.len()
                },
            }
        }),
        v.filter is Some || !v.buffer.has_source || v.buffer.finished || v.top + rows
            + rows_for_lines(v.height as int) < v.buffer.lines.len() ==> v.down(rows) is Ok,
{
}

/// What the keys that scroll down do without wrapping: the top line goes down by the
/// rows of the key, but not past the last lines, and nothing else changes but for a
/// message that goes. A line below the screen is waited for if it may be there.
#[verifier::rlimit(50)]
#[verifier::spinoff_prover]
pub proof fn law_keys_down(v: PagerView, key: Key, refused: Option<Seq<char>>)
    requires
        v.wf(),
        v.mode == Mode::Normal,
        v.pending is Idle,
        !v.wrap,
        rows_down(key, v.height as int) > 0,
    ensures
        ({
            let rows = rows_down(key, v.height as int);
            let h = rows_for_lines(v.height as int);
            let n = count_shown(v);
            let (w, step) = v.after_key(key, refused);
            if v.filter is None && v.buffer.can_read() && v.top + rows + h >= n {
                &&& step == Step::NeedLine(line_number(v.top + rows + h))
                &&& w == (PagerView { status: None, pending: w.pending, ..v })
            } else {
                &&& step is Continue
                &&& w == (PagerView { status: None, top: w.top, ..v })
                &&& w.top == if n <= h {
                    0
                } else if v.top + rows + h < n {
                    v.top + rows
                } else {
                    n - h
                }
            }
        }),
{
}

/// What the keys that scroll down do with wrapping: the top line is where `down` ends
/// for the rows of the key.
pub proof fn law_keys_down_wrapped(v: PagerView, key: Key, refused: Option<Seq<char>>)
    requires
        v.wf(),
        v.mode == Mode::Normal,
        v.pending is Idle,
        v.wrap,
        rows_down(key, v.height as int) > 0,
    ensures
        ({
            let (w, step) = v.after_key(key, refused);
            match v.down(rows_down(key, v.height as int)) {
                Ok(t) => step is Continue && w == (PagerView { status: None, top: t, ..v }),
                Err(n) => step == Step::NeedLine(line_number(n)) && w == (PagerView {
                    status: None,
                    pending: w.pending,
                    ..v
                }),
            }
        }),
{
    let quiet = PagerView { status: None, ..v };
    let rows = rows_down(key, v.height as int);
    assert(quiet.page() == v.page());
    assert(quiet.scrolling_down(rows as usize).page() == v.page());
}

/// What the keys that scroll up do: the top line goes up by the rows of the key, but
/// not past the first line, and nothing else changes but for a message that goes. With
/// wrapping, it goes up by as few lines as have so many rows.
#[verifier::rlimit(50)]
#[verifier::spinoff_prover]
pub proof fn law_keys_up(v: PagerView, key: Key, refused: Option<Seq<char>>)
    requires
        v.wf(),
        v.mode == Mode::Normal,
        v.pending is Idle,
        rows_up(key, v.height as int) > 0,
    ensures
        ({
            let rows = rows_up(key, v.height as int);
            let (w, step) = v.after_key(key, refused);
            &&& step is Continue
            &&& w == (PagerView { status: None, top: w.top, ..v })
            &&& 0 <= w.top <= v.top
            &&& if v.wrap {
                &&& w.top == 0 || v.page().rows_between(w.top, v.top) >= rows
                &&& w.top < v.top ==> v.page().rows_between(w.top + 1, v.top) < rows
            } else {
                w.top == 0 && v.top <= rows || w.top == v.top - rows
            }
        }),
{
    let quiet = PagerView { status: None, ..v };
    assert(quiet.page() == v.page());
    v.page().law_up(v.top, rows_up(key, v.height as int));
}

/// The first line and column on the screen.
pub proof fn law_key_top(v: PagerView, key: Key, refused: Option<Seq<char>>)
    requires
        v.mode == Mode::Normal,
        v.pending is Idle,
        key == Key::Char('g') || key == Key::Home,
    ensures
        v.after_key(key, refused) == (
            PagerView { status: None, top: 0, left: 0, ..v },
            Step::Continue,
        ),
{
}

/// The keys for the bottom, and for follow mode, which begins there: once all lines are
/// read, the last line is on the screen, and there is no room for one more above.
#[verifier::rlimit(50)]
#[verifier::spinoff_prover]
pub proof fn law_key_bottom(v: PagerView, key: Key, refused: Option<Seq<char>>)
    requires
        v.wf(),
        v.mode == Mode::Normal,
        v.pending is Idle,
        key == Key::Char('G') || key == Key::End || key == Key::Char('F'),
    ensures
        ({
            let h = rows_for_lines(v.height as int);
            let n = count_shown(v);
            let (w, step) = v.after_key(key, refused);
            let (mode, follow) = if key == Key::Char('F') {
                (Mode::Follow, true)
            } else {
                (Mode::Normal, v.follow)
            };
            if v.buffer.has_source && !v.buffer.finished {
                &&& step is NeedAll
                &&& w == (PagerView { status: None, mode, follow, pending: w.pending, ..v })
            } else {
                &&& step is Continue
                &&& w == (PagerView { status: None, mode, follow, top: w.top, ..v })
                &&& if v.wrap {
                    &&& w.top == 0 || 0 < w.top < n
                    &&& n == 0 || w.top == n - 1 || v.page().rows_from(w.top) <= h
                    &&& w.top == 0 || v.page().rows_from(w.top - 1) > h
                } else {
                    w.top == if n > h {
                        n - h
                    } else {
                        0
                    }
                }
            }
        }),
{
    let quiet = PagerView { status: None, ..v };
    law_bottom(v);
    assert(quiet.page() == v.page());
    assert(v.after_key(key, refused).0.page() == v.page());
}

/// The keys that scroll sideways move by eight columns, not past the first, and not
/// where lines are wrapped.
pub proof fn law_keys_sideways(v: PagerView, refused: Option<Seq<char>>)
    requires
        v.mode == Mode::Normal,
        v.pending is Idle,
        v.left >= 0,
    ensures
        ({
            let (right, left) = (v.after_key(Key::Right, refused), v.after_key(Key::Left, refused));
            &&& right.1 is Continue && left.1 is Continue
            &&& right.0 == (PagerView { status: None, left: right.0.left, ..v })
            &&& left.0 == (PagerView { status: None, left: left.0.left, ..v })
            &&& right.0.left - v.left == if v.wrap {
                0int
            } else {
                8
            }
            &&& v.wrap ==> left.0.left == v.left
            &&& !v.wrap ==> left.0.left >= 0 && (left.0.left == v.left - 8 || (left.0.left == 0
                && v.left < 8))
        }),
{
}

/// The keys that switch to another mode, and the one that switches wrapping, change
/// nothing else but for a message that goes; lines of input begin empty.
#[verifier::rlimit(50)]
#[verifier::spinoff_prover]
pub proof fn law_keys_switch(v: PagerView, refused: Option<Seq<char>>)
    requires
        v.mode == Mode::Normal,
        v.pending is Idle,
    ensures
        ({
            let empty = editor::EditorView { before: Seq::empty(), after: Seq::empty() };
            let old = v.history;
            let history = history::HistoryView {
                entries: old.entries,
                cursor: old.entries.len() as int,
                draft: Seq::empty(),
            };
            let quiet = PagerView { status: None, ..v };
            let forward = SearchDir::Forward;
            let backward = SearchDir::Backward;
            &&& v.after_key(Key::Char('h'), refused) == (
                PagerView { mode: Mode::Help, ..quiet },
                Step::Continue,
            )
            &&& v.after_key(Key::Char('w'), refused) == (
                PagerView { wrap: !v.wrap, left: 0, ..quiet },
                Step::Continue,
            )
            &&& v.after_key(Key::Char('&'), refused) == (
                PagerView { mode: Mode::FilterInput, filter_input: empty, ..quiet },
                Step::Continue,
            )
            &&& v.after_key(Key::Char('/'), refused) == (
                PagerView {
                    mode: Mode::SearchInput,
                    search_input: empty,
                    dir: forward,
                    history,
                    ..quiet
                },
                Step::Continue,
            )
            &&& v.after_key(Key::Char('?'), refused) == (
                PagerView {
                    mode: Mode::SearchInput,
                    search_input: empty,
                    dir: backward,
                    history,
                    ..quiet
                },
                Step::Continue,
            )
        }),
{
}

/// Whether a key has a use in normal mode.
pub open spec fn has_use(key: Key) -> bool {
    match key {
        Key::Char(c) => "qjkdu bgG/?nN&wFh"@.contains(c),
        Key::Ctrl(c) => "cdufb"@.contains(c),
        Key::Backspace | Key::Delete | Key::Unknown => false,
        _ => true,
    }
}

/// A key without a use does nothing in normal mode, but for a message that goes.
#[verifier::rlimit(50)]
#[verifier::spinoff_prover]
pub proof fn law_other_keys(v: PagerView, key: Key, refused: Option<Seq<char>>)
    requires
        v.mode == Mode::Normal,
        v.pending is Idle,
        !has_use(key),
    ensures
        v.after_key(key, refused) == (PagerView { status: None, ..v }, Step::Continue),
{
    reveal_strlit("qjkdu bgG/?nN&wFh");
    reveal_strlit("cdufb");
    let s = "qjkdu bgG/?nN&wFh"@;
    let t = "cdufb"@;
    assert(s.contains(s[0]) && s.contains(s[1]) && s.contains(s[2]) && s.contains(s[3])
        && s.contains(s[4]) && s.contains(s[5]) && s.contains(s[6]) && s.contains(s[7])
        && s.contains(s[8]) && s.contains(s[9]) && s.contains(s[10]) && s.contains(s[11])
        && s.contains(s[12]) && s.contains(s[13]) && s.contains(s[14]) && s.contains(s[15])
        && s.contains(s[16]));
    assert(t.contains(t[0]) && t.contains(t[1]) && t.contains(t[2]) && t.contains(t[3])
        && t.contains(t[4]));
}

/// In follow mode keys end the pager or do nothing, and on the help screen they return
/// to the lines or do nothing.
pub proof fn law_keys_elsewhere(v: PagerView, key: Key, refused: Option<Seq<char>>)
    requires
        v.pending is Idle,
    ensures
        v.mode == Mode::Follow ==> v.after_key(key, refused).0 == v,
        v.mode == Mode::Help ==> v.after_key(key, refused) == (
            if key == Key::Char('h') || key == Key::Char('q') || key == Key::Escape {
                PagerView { mode: Mode::Normal, ..v }
            } else {
                v
            },
            Step::Continue,
        ),
{
}

/// No key changes the lines that were read, the size of the screen, how escape
/// sequences are shown or the name of the file. The filter changes only where one is
/// typed, and the pattern to search for only where one is typed.
#[verifier::rlimit(50)]
#[verifier::spinoff_prover]
pub proof fn law_keys_keep(v: PagerView, key: Key, refused: Option<Seq<char>>)
    requires
        v.pending is Idle,
    ensures
        ({
            let w = v.after_key(key, refused).0;
            &&& w.buffer == v.buffer
            &&& w.width == v.width && w.height == v.height
            &&& w.raw == v.raw && w.filename == v.filename
            &&& w.filter != v.filter || w.filtered != v.filtered ==> v.mode == Mode::FilterInput
                && key is Enter
            &&& w.search != v.search ==> v.mode == Mode::SearchInput && key is Enter
            &&& w.history.entries != v.history.entries ==> v.mode == Mode::SearchInput && key is Enter
            &&& w.wrap != v.wrap ==> v.mode == Mode::Normal && key == Key::Char('w')
        }),
{
    let b = v.begun(key, refused).0;
    lemma_advanced_keeps(b);
    match v.mode {
        Mode::Normal => {
            assert(b == v.normal_key(key).0);
            assert(b.filtered == v.filtered && !(b.pending is Filter));
        },
        Mode::SearchInput => {
            assert(b == v.search_input_key(key, refused));
            assert(!(b.pending is Filter));
        },
        _ => {},
    }
}

/// What is left to do changes only where the screen is, the message, and the lines that
/// pass a filter that is pending.
proof fn lemma_advanced_keeps(v: PagerView)
    ensures
        ({
            let w = v.advanced().0;
            &&& w.buffer == v.buffer
            &&& w.width == v.width && w.height == v.height
            &&& w.raw == v.raw && w.filename == v.filename
            &&& w.filter == v.filter && w.search == v.search
            &&& w.history == v.history && w.wrap == v.wrap
            &&& w.filtered != v.filtered ==> v.pending is Filter
        }),
{
}

/// Whether the line that comes `n`-th among those that are shown can be what a search
/// finds that begins after line `after` of the buffer or, if there is none, at the top
/// line; a search back begins with the line before.
pub open spec fn in_reach(v: PagerView, forward: bool, after: Option<int>, n: int) -> bool {
    &&& 0 <= n < count_shown(v)
    &&& match after {
        Some(l) => if forward {
            nth_shown(v, n) > l
        } else {
            nth_shown(v, n) < l
        },
        None => if forward {
            n >= v.top
        } else {
            n < v.top
        },
    }
}

/// Whether the line that comes `n`-th among those that are shown matches.
pub open spec fn is_hit(v: PagerView, pattern: Seq<char>, n: int) -> bool {
    search::line_matches(pattern, v.buffer.lines[nth_shown(v, n)])
}

/// Whether a search from state `v` may end in `w`: on the nearest line in reach that
/// matches, which is then the first on the screen, or with a message where there is
/// none. It stops to ask for a line only if no line that was read will do, and does so
/// where a line after those may.
pub open spec fn search_ends(
    v: PagerView,
    pattern: Seq<char>,
    forward: bool,
    after: Option<int>,
    w: PagerView,
    step: Step,
) -> bool {
    let found = exists|n: int| #[trigger] in_reach(v, forward, after, n) && is_hit(v, pattern, n);
    if found {
        &&& step is Continue
        &&& in_reach(v, forward, after, w.top)
        &&& is_hit(v, pattern, w.top)
        &&& forall|n: int| #[trigger]
            in_reach(v, forward, after, n) && is_hit(v, pattern, n) ==> if forward {
                w.top <= n
            } else {
                n <= w.top
            }
        &&& w == (PagerView { top: w.top, current: Some(nth_shown(v, w.top)), ..v })
    } else if forward && v.filter is None && v.buffer.has_source && !v.buffer.finished {
        &&& step matches Step::NeedLine(n) && n == v.buffer.lines.len()
        &&& w == (PagerView { pending: w.pending, ..v })
    } else {
        &&& step is Continue
        &&& w == (PagerView { status: Some("Pattern not found"@), ..v })
    }
}

/// A search that begins at line `from` of those that are shown ends on the nearest.
#[verifier::rlimit(50)]
#[verifier::spinoff_prover]
proof fn lemma_search_ends(v: PagerView, forward: bool)
    requires
        v.wf(),
        v.search is Some,
        v.pending is Idle,
    ensures
        ({
            let (w, step) = v.searched(forward).advanced();
            search_ends(v, v.search->0, forward, v.current, w, step)
        }),
{
    let p = v.search->0;
    let s = v.searched(forward);
    let lines = v.shown().lines;
    lemma_line_at(v);
    lemma_searched(v, forward);
    if let Some(l) = v.current {
        lemma_number_of(v, l);
        lemma_number_of(v, l + 1);
    }
    assert(s.shown() == v.shown());
    assert(lines.len() == count_shown(v));
    if let Action::Search { from, .. } = s.pending {
        assert forall|n: int| #[trigger] in_reach(v, forward, v.current, n) implies {
            &&& 0 <= n < lines.len()
            &&& lines[n] == v.buffer.lines[nth_shown(v, n)]
            &&& if forward {
                from <= n
            } else {
                n < from
            }
        } by {
            assert(v.line_at(n) == Some(nth_shown(v, n)));
        }
        assert forall|n: int|
            0 <= n < lines.len() && (if forward {
                from <= n
            } else {
                n < from
            }) implies #[trigger] in_reach(v, forward, v.current, n) by {
            assert(v.line_at(n) == Some(nth_shown(v, n)));
        }
        search::law_next_match(p, lines, from as int);
        search::law_prev_match(p, lines, from as int);
        match search::match_from(p, lines, from as int, forward) {
            Some(k) => {
                assert(in_reach(v, forward, v.current, k));
                assert(is_hit(v, p, k));
                assert(v.line_at(k) == Some(nth_shown(v, k)));
                assert(s.line_at(k) == v.line_at(k));
            },
            None => {
                assert forall|n: int| #[trigger] in_reach(v, forward, v.current, n) implies !is_hit(
                    v,
                    p,
                    n,
                ) by {
                    assert(!search::line_matches(p, lines[n]));
                }
            },
        }
    }
}

/// `n` goes on to the next match in the direction of the last search, and `N` in the
/// other: to the nearest line beyond the last match, or from the top line where there
/// was none, that matches. Without a pattern they do nothing.
#[verifier::rlimit(50)]
#[verifier::spinoff_prover]
pub proof fn law_keys_next_match(v: PagerView, key: Key, refused: Option<Seq<char>>)
    requires
        v.wf(),
        v.mode == Mode::Normal,
        v.pending is Idle,
        key == Key::Char('n') || key == Key::Char('N'),
    ensures
        ({
            let quiet = PagerView { status: None, ..v };
            let (w, step) = v.after_key(key, refused);
            match v.search {
                Some(p) => search_ends(
                    quiet,
                    p,
                    (key == Key::Char('n')) == (v.dir == SearchDir::Forward),
                    v.current,
                    w,
                    step,
                ),
                None => w == quiet && step is Continue,
            }
        }),
{
    let quiet = PagerView { status: None, ..v };
    if v.search is Some {
        lemma_search_ends(quiet, true);
        lemma_search_ends(quiet, false);
    }
}

/// A pattern that is accepted is searched for from the top line of the screen, whatever
/// was found before, in the direction that was asked for. It is then the pattern, and
/// the latest in the history.
#[verifier::rlimit(50)]
#[verifier::spinoff_prover]
pub proof fn law_search_entered(v: PagerView)
    requires
        v.wf(),
        v.mode == Mode::SearchInput,
        v.pending is Idle,
        v.search_input.content().len() > 0,
    ensures
        ({
            let p = v.search_input.before + v.search_input.after;
            let begun = PagerView {
                mode: Mode::Normal,
                search: Some(p),
                current: None,
                history: v.history.push(p),
                ..v
            };
            let (w, step) = v.after_key(Key::Enter, None);
            &&& search_ends(begun, p, v.dir == SearchDir::Forward, None, w, step)
            &&& v.search_entered(None).advanced() == (w, step)
        }),
{
    let p = v.search_input.content();
    let begun = PagerView {
        mode: Mode::Normal,
        search: Some(p),
        current: None,
        history: v.history.push(p),
        ..v
    };
    assert(begun.wf());
    lemma_search_ends(begun, v.dir == SearchDir::Forward);
}

/// A pattern that is refused leaves the search and the lines on the screen as they are,
/// and says why. No pattern leaves all as it is.
pub proof fn law_search_refused(v: PagerView, why: Seq<char>, refused: Option<Seq<char>>)
    requires
        v.mode == Mode::SearchInput,
        v.pending is Idle,
    ensures
        ({
            let p = v.search_input.before + v.search_input.after;
            if p.len() == 0 {
                v.after_key(Key::Enter, refused) == (
                    PagerView { mode: Mode::Normal, ..v },
                    Step::Continue,
                )
            } else {
                v.after_key(Key::Enter, Some(why)) == (
                    PagerView {
                        mode: Mode::Normal,
                        status: Some(why),
                        history: v.history.push(p),
                        ..v
                    },
                    Step::Continue,
                )
            }
        }),
{
}

/// A filter that is accepted shows from the top, once all lines are read, exactly the
/// lines that match it, in their order. One that is refused says why, and an empty one
/// shows all lines again; neither moves.
#[verifier::rlimit(50)]
#[verifier::spinoff_prover]
pub proof fn law_filter_entered(v: PagerView, refused: Option<Seq<char>>)
    requires
        v.wf(),
        v.mode == Mode::FilterInput,
        v.pending is Idle,
    ensures
        ({
            let p = v.filter_input.before + v.filter_input.after;
            let (w, step) = v.after_key(Key::Enter, refused);
            let lines = v.buffer.lines;
            if p.len() == 0 {
                &&& step is Continue
                &&& w == (PagerView {
                    mode: Mode::Normal,
                    filter: None,
                    filtered: Seq::empty(),
                    ..v
                })
            } else if refused is Some {
                &&& step is Continue
                &&& w == (PagerView { mode: Mode::Normal, status: refused, ..v })
            } else if v.buffer.has_source && !v.buffer.finished {
                &&& step is NeedAll
                &&& w == (PagerView {
                    mode: Mode::Normal,
                    filter: Some(p),
                    filtered: w.filtered,
                    pending: w.pending,
                    ..v
                })
            } else {
                &&& step is Continue
                &&& w == (PagerView {
                    mode: Mode::Normal,
                    filter: Some(p),
                    filtered: w.filtered,
                    top: 0,
                    ..v
                })
                &&& forall|i: int, j: int|
                    0 <= i < j < w.filtered.len() ==> #[trigger] w.filtered[i]
                        < #[trigger] w.filtered[j]
                &&& forall|l: int|
                    0 <= l < lines.len() ==> (w.filtered.contains(l as usize)
                        <==> search::line_matches(p, #[trigger] lines[l]))
                &&& forall|i: int|
                    0 <= i < w.filtered.len() ==> #[trigger] w.filtered[i] < lines.len()
            }
        }),
{
    let p = v.filter_input.content();
    let lines = v.buffer.lines;
    law_matching(p, lines, lines.len() as int);
}

/// What is typed goes into the line of input at the cursor; other keys move the cursor
/// or take out the character before or after it. Nothing else changes.
#[verifier::rlimit(50)]
#[verifier::spinoff_prover]
pub proof fn law_typing(v: PagerView, key: Key, refused: Option<Seq<char>>)
    requires
        v.pending is Idle,
        v.mode == Mode::SearchInput || v.mode == Mode::FilterInput,
        !(key is Enter || key is Escape || key == Key::Ctrl('c')),
        v.mode == Mode::SearchInput ==> !(key is Up || key is Down),
    ensures
        ({
            let e = if v.mode == Mode::SearchInput {
                v.search_input
            } else {
                v.filter_input
            };
            let line = e.before + e.after;
            let at = e.before.len() as int;
            let (w, step) = v.after_key(key, refused);
            let f = if v.mode == Mode::SearchInput {
                w.search_input
            } else {
                w.filter_input
            };
            &&& step is Continue
            &&& v.mode == Mode::SearchInput ==> w == (PagerView { search_input: f, ..v })
            &&& v.mode == Mode::FilterInput ==> w == (PagerView { filter_input: f, ..v })
            &&& f.before + f.after == match key {
                Key::Char(c) => line.insert(at, c),
                Key::Backspace => if at > 0 {
                    line.remove(at - 1)
                } else {
                    line
                },
                Key::Delete => if at < line.len() {
                    line.remove(at)
                } else {
                    line
                },
                _ => line,
            }
            &&& f.before.len() == match key {
                Key::Char(_) => at + 1,
                Key::Backspace | Key::Left => if at > 0 {
                    at - 1
                } else {
                    at
                },
                Key::Right => if at < line.len() {
                    at + 1
                } else {
                    at
                },
                Key::Home => 0,
                Key::End => line.len() as int,
                _ => at,
            }
        }),
{
    let e = if v.mode == Mode::SearchInput {
        v.search_input
    } else {
        v.filter_input
    };
    editor::law_edits(e, match key {
        Key::Char(c) => c,
        _ => ' ',
    });
}

/// Escape and Ctrl-C leave a line of input and change nothing else.
pub proof fn law_input_left(v: PagerView, key: Key, refused: Option<Seq<char>>)
    requires
        v.pending is Idle,
        v.mode == Mode::SearchInput || v.mode == Mode::FilterInput,
        key is Escape || key == Key::Ctrl('c'),
    ensures
        v.after_key(key, refused) == (PagerView { mode: Mode::Normal, ..v }, Step::Continue),
{
}

/// Up recalls the pattern before the one that was recalled last, beginning with the
/// latest, and stays at the oldest; Down goes the other way, and past the latest comes
/// back to what was typed. The cursor is at the end of what is recalled.
#[verifier::rlimit(50)]
#[verifier::spinoff_prover]
pub proof fn law_recalling(v: PagerView, refused: Option<Seq<char>>)
    requires
        v.pending is Idle,
        v.mode == Mode::SearchInput,
        0 <= v.history.cursor <= v.history.entries.len(),
    ensures
        ({
            let all = v.history.entries;
            let at = v.history.cursor;
            let typed = v.search_input.before + v.search_input.after;
            let (up, step_up) = v.after_key(Key::Up, refused);
            let (down, step_down) = v.after_key(Key::Down, refused);
            let to = if at > 0 {
                at - 1
            } else {
                0
            };
            &&& step_up is Continue && step_down is Continue
            &&& all.len() == 0 ==> up == v
            &&& all.len() > 0 ==> up == (PagerView {
                history: history::HistoryView {
                    entries: all,
                    cursor: to,
                    draft: if at == all.len() {
                        typed
                    } else {
                        v.history.draft
                    },
                },
                search_input: editor::EditorView { before: all[to], after: Seq::empty() },
                ..v
            })
            &&& down == (PagerView {
                history: history::HistoryView {
                    entries: all,
                    cursor: if at < all.len() {
                        at + 1
                    } else {
                        at
                    },
                    draft: v.history.draft,
                },
                search_input: editor::EditorView {
                    before: if at + 1 < all.len() {
                        all[at + 1]
                    } else {
                        v.history.draft
                    },
                    after: Seq::empty(),
                },
                ..v
            })
        }),
{
}

/// Once all lines are read, scrolling down with wrapping goes on by the lines that have
/// as many rows as were asked for, and by one at least, and no further than to where the
/// lines that are left still fill the screen. From the bottom it does not move.
#[verifier::rlimit(50)]
#[verifier::spinoff_prover]
pub proof fn law_wrapped_down_exact(v: PagerView, rows: int) -> (target: int)
    requires
        v.wrap,
        v.wf(),
        !(v.pending is Filter),
        rows >= 0,
        v.filter is Some || v.buffer.finished,
    ensures
        ({
            let p = v.page();
            let n = count_shown(v);
            let h = rows_for_lines(v.height as int);
            let t = target;
            &&& v.top <= t && (t == 0 || t < n)
            &&& rows >= 1 && v.top + 1 < n ==> t > v.top
            &&& t > v.top + 1 ==> p.rows_between(v.top, t) <= rows
            &&& rows < p.rows_between(v.top, t + 1) || t + 1 >= n
            &&& v.down(rows) matches Ok(r) && {
                ||| {
                    &&& 0 <= r <= t
                    &&& r == 0 || p.rows_from(r) >= h
                    &&& r < t ==> p.rows_from(r + 1) < h
                }
                ||| {
                    &&& r == v.top
                    &&& n == 0 || r == n - 1 || p.rows_from(r) <= h
                    &&& r == 0 || p.rows_from(r - 1) > h
                }
            }
        }),
{
    let p = v.page();
    let h = v.content_height();
    p.law_down(v.top, rows);
    p.law_bottom(h);
    assert(!p.buffer.can_read());
    let t = p.down(v.top, rows)->Ok_0;
    p.law_clamp(t, h);
    t
}

/// What is left to do for the bottom, at the start of follow mode as well: once all lines
/// are read, the last line is on the screen, and there is no room for one more above;
/// nothing else changes.
pub proof fn law_bottom_reached(v: PagerView)
    requires
        v.wf(),
        v.pending is Bottom,
    ensures
        ({
            let h = rows_for_lines(v.height as int);
            let n = count_shown(v);
            let (w, step) = v.advanced();
            if v.buffer.has_source && !v.buffer.finished {
                step is NeedAll && w == v
            } else {
                &&& step is Continue
                &&& w == (PagerView { top: w.top, pending: Action::Idle, ..v })
                &&& w.top == v.bottom().top
                &&& if v.wrap {
                    &&& w.top == 0 || 0 < w.top < n
                    &&& n == 0 || w.top == n - 1 || v.page().rows_from(w.top) <= h
                    &&& w.top == 0 || v.page().rows_from(w.top - 1) > h
                } else {
                    w.top == if n > h {
                        n - h
                    } else {
                        0
                    }
                }
            }
        }),
{
    let idle = PagerView { pending: Action::Idle, ..v };
    law_bottom(v);
    assert(idle.page() == v.page());
}

/// Going to the bottom changes only the top line, and shows the last lines.
pub proof fn law_bottom_shows_end(v: PagerView)
    requires
        v.wf(),
        !v.wrap,
    ensures
        ({
            let w = v.bottom();
            let h = rows_for_lines(v.height as int);
            &&& w == (PagerView { top: w.top, ..v })
            &&& count_shown(v) > 0 ==> w.top <= count_shown(v) - 1 < w.top + h
            &&& w.top > 0 ==> w.top + h == count_shown(v)
        }),
{
}

/// The keys that end the pager: `q`, Escape and Ctrl-C, and only where lines are shown
/// or waited for.
pub proof fn law_quit_keys(v: PagerView, key: Key, refused: Option<Seq<char>>)
    requires
        v.pending is Idle,
    ensures
        v.after_key(key, refused).1 is Quit <==> (v.mode == Mode::Normal || v.mode == Mode::Follow)
            && (key == Key::Char('q') || key == Key::Escape || key == Key::Ctrl('c')),
        v.after_key(key, refused).1 is Quit && v.mode == Mode::Normal ==> v.after_key(
            key,
            refused,
        ).0 == (PagerView { status: None, ..v }),
{
}

/// The lines that are asked for are those that are needed.
pub proof fn law_line_number(n: usize)
    ensures
        line_number(n as int) == n,
{
}

/// A pattern is complete with Enter where one is typed, and is what was typed. A literal
/// one is not refused; another only with what its expression may be refused with.
pub proof fn law_completed(v: PagerView, key: Key, why: Seq<char>)
    ensures
        ({
            let done = v.completed(key);
            &&& key is Enter && v.mode == Mode::SearchInput ==> done == v.search_input.before
                + v.search_input.after
            &&& key is Enter && v.mode == Mode::FilterInput ==> done == v.filter_input.before
                + v.filter_input.after
            &&& !(key is Enter) || (v.mode != Mode::SearchInput && v.mode != Mode::FilterInput)
                ==> done.len() == 0
            &&& may_refuse(done, None)
            &&& search::literal(done) ==> !may_refuse(done, Some(why))
            &&& may_refuse(done, Some(why)) ==> exists|text: Seq<char>|
                why == "Invalid regex: "@ + text && #[trigger] regexp::refuses(
                    search::expression(done),
                    text,
                )
        }),
{
}

} // verus!

//! The pager: what is shown, and what each key does.
use crate::buffer;
use crate::buffer::{LineBuffer, ReadOutcome, ShownLines};
use crate::editor;
use crate::editor::LineEditor;
use crate::history::SearchHistory;
use crate::input::Key;
use crate::search;
use crate::search::Search;
use crate::state;
use crate::state::{Action, Mode, PagerView, SearchDir, Step};
use crate::wrap;
use vstd::prelude::*;

verus! {

/// What is wrong with a pattern, according to the search that was made for it.
pub open spec fn refusal(made: Result<Search, String>) -> Option<Seq<char>> {
    match made {
        Ok(_) => None,
        Err(e) => Some(e@),
    }
}

/// The pattern of a search.
pub open spec fn pattern_of(s: Option<Search>) -> Option<Seq<char>> {
    match s {
        Some(s) => Some(s@),
        None => None,
    }
}

/// The text of a string.
pub open spec fn text_of(s: Option<String>) -> Option<Seq<char>> {
    match s {
        Some(s) => Some(s@),
        None => None,
    }
}

/// What is shown, and what keys do to it.
pub struct Pager {
    pub buffer: LineBuffer,
    pub top_line: usize,
    pub left_col: usize,
    pub wrap: bool,
    pub search: Option<Search>,
    pub search_dir: SearchDir,
    pub current_match_line: Option<usize>,
    pub mode: Mode,
    pub search_input: LineEditor,
    pub filter_input: LineEditor,
    pub filter: Option<Search>,
    pub filtered_lines: Vec<usize>,
    pub history: SearchHistory,
    pub term_width: u16,
    pub term_height: u16,
    pub follow: bool,
    pub raw_mode: bool,
    pub status_msg: Option<String>,
    pub filename: Option<String>,
    pub pending: Action,
}

impl View for Pager {
    type V = PagerView;

    open spec fn view(&self) -> PagerView {
        PagerView {
            buffer: self.buffer@,
            top: self.top_line as int,
            left: self.left_col as int,
            wrap: self.wrap,
            search: pattern_of(self.search),
            dir: self.search_dir,
            current: match self.current_match_line {
                Some(l) => Some(l as int),
                None => None,
            },
            mode: self.mode,
            search_input: self.search_input@,
            filter_input: self.filter_input@,
            filter: pattern_of(self.filter),
            filtered: self.filtered_lines@,
            history: self.history@,
            width: self.term_width,
            height: self.term_height,
            follow: self.follow,
            raw: self.raw_mode,
            status: text_of(self.status_msg),
            filename: text_of(self.filename),
            pending: self.pending,
        }
    }
}

impl Pager {
    /// The parts are well-formed, the screen is not empty, the lines that are
    /// referred to exist, and there is a search or a filter where one is pending.
    pub open spec fn wf(&self) -> bool {
        &&& self@.wf()
        &&& self.search matches Some(s) ==> s.wf()
        &&& self.filter matches Some(s) ==> s.wf()
        &&& self.search_input.wf()
        &&& self.filter_input.wf()
        &&& self.history.wf()
        &&& self.pending matches Action::Search { from, .. } ==> self.search is Some && from
            <= self@.total()
        &&& self.pending is Filter ==> self.filter is Some
    }

    /// A pager at the start of its lines, on a screen of the given columns and rows.
    pub fn new(
        buffer: LineBuffer,
        follow: bool,
        raw_mode: bool,
        filename: Option<String>,
        history: SearchHistory,
        size: (u16, u16),
    ) -> (r: Pager)
        requires
            buffer@.has_source || buffer@.finished,
            history.wf(),
            size.0 >= 1,
            size.1 >= 1,
        ensures
            r.wf(),
            r@ == (PagerView {
                buffer: buffer@,
                top: 0,
                left: 0,
                wrap: false,
                search: None,
                dir: SearchDir::Forward,
                current: None,
                mode: if follow {
                    Mode::Follow
                } else {
                    Mode::Normal
                },
                search_input: editor::EditorView::empty(),
                filter_input: editor::EditorView::empty(),
                filter: None,
                filtered: Seq::empty(),
                history: history@,
                width: size.0,
                height: size.1,
                follow,
                raw: raw_mode,
                status: None,
                filename: text_of(filename),
                pending: Action::Idle,
            }),
    {
        assert(buffer.lines.len() == buffer@.lines.len());
        Pager {
            buffer,
            top_line: 0,
            left_col: 0,
            wrap: false,
            search: None,
            search_dir: SearchDir::Forward,
            current_match_line: None,
            mode: if follow {
                Mode::Follow
            } else {
                Mode::Normal
            },
            search_input: LineEditor::new(),
            filter_input: LineEditor::new(),
            filter: None,
            filtered_lines: Vec::new(),
            history,
            term_width: size.0,
            term_height: size.1,
            follow,
            raw_mode,
            status_msg: None,
            filename,
            pending: Action::Idle,
        }
    }

    /// The search history.
    pub fn history(&self) -> (r: &SearchHistory)
        ensures
            *r == self.history,
            r@ == self@.history,
    {
        &self.history
    }

    /// Rows that lines are shown in.
    pub fn content_height(&self) -> (r: usize)
        ensures
            r == self@.content_height(),
            1 <= r < 65536,
    {
        if self.term_height > 1 {
            (self.term_height - 1) as usize
        } else {
            1
        }
    }

    /// The lines that are shown.
    pub fn shown_lines(&self) -> (r: ShownLines<'_>)
        ensures
            r@ == self@.shown(),
            self.wf() ==> r.wf(),
    {
        ShownLines {
            buffer: &self.buffer,
            among: if self.filter.is_some() {
                Some(&self.filtered_lines)
            } else {
                None
            },
        }
    }

    /// The number among the lines that are shown of the first one that is line `l` of
    /// the buffer or comes after it.
    fn number_of(&self, l: usize) -> (r: usize)
        requires
            self.wf(),
            l <= self@.buffer.lines.len(),
        ensures
            r == self@.number_of(l as int),
            r <= self@.total(),
    {
        if self.filter.is_none() {
            return l;
        }
        let n: usize = self.filtered_lines.len();
        let mut k: usize = 0;
        while k < n && self.filtered_lines[k] < l
            invariant
                k <= n,
                n == self.filtered_lines@.len(),
                state::below(self.filtered_lines@, l as int, 0) == state::below(
                    self.filtered_lines@,
                    l as int,
                    k as int,
                ),
            decreases n - k,
        {
            k = k + 1;
        }
        k
    }

    /// Total number of displayable lines (filtered or total).
    pub fn display_line_count(&self) -> (r: usize)
        ensures
            r == self@.total(),
    {
        if self.filter.is_some() {
            self.filtered_lines.len()
        } else {
            self.buffer.len()
        }
    }

    /// Map a display row to an actual buffer line index.
    pub fn display_line_idx(&self, display_idx: usize) -> (r: Option<usize>)
        ensures
            match r {
                Some(i) => self@.line_at(display_idx as int) == Some(i as int),
                None => self@.line_at(display_idx as int) is None,
            },
    {
        let line: usize = if self.filter.is_some() {
            if display_idx < self.filtered_lines.len() {
                self.filtered_lines[display_idx]
            } else {
                return None;
            }
        } else {
            display_idx
        };
        if line < self.buffer.len() {
            Some(line)
        } else {
            None
        }
    }

    /// Show the last lines.
    pub fn scroll_to_bottom(&mut self)
        requires
            old(self).wf(),
        ensures
            final(self)@ == old(self)@.bottom(),
            final(self).wf(),
    {
        let total: usize = self.display_line_count();
        let ch: usize = self.content_height();
        if self.wrap {
            self.top_line = wrap::bottom_top_line_wrapped(
                &self.shown_lines(),
                self.term_width as usize,
                ch,
                self.raw_mode,
            );
        } else if total > ch {
            self.top_line = total - ch;
        } else {
            self.top_line = 0;
        }
    }

    /// The top line that is used for `target`, or the line that has to be read to
    /// tell.
    fn clamp_top_line(&self, target: usize) -> (r: Result<usize, usize>)
        requires
            self.wf(),
            !(self.pending is Filter),
        ensures
            match r {
                Ok(t) => {
                    &&& self@.filter is Some || !self@.buffer.can_read()
                        || self@.buffer.lines.len() > target + self@.content_height()
                    &&& t == self@.clamped(target as int)
                    &&& t == 0 || t < self@.total()
                },
                Err(n) => {
                    &&& self@.filter is None
                    &&& self@.buffer.can_read()
                    &&& self@.buffer.lines.len() <= target + self@.content_height()
                    &&& n == state::line_number(target + self@.content_height())
                },
            },
    {
        let ch: usize = self.content_height();
        if self.filter.is_none() {
            let last: usize = target.saturating_add(ch);
            if self.buffer.needed_for(last) > 0 {
                return Err(last);
            }
        }
        let total: usize = self.display_line_count();
        if total <= ch {
            Ok(0)
        } else if target > total - ch && (self.filter.is_some() || self.buffer.is_finished()) {
            Ok(total - ch)
        } else {
            Ok(target)
        }
    }

    /// The top line after scrolling down, or the line that has to be read first.
    fn scroll_down(&self, rows: usize) -> (r: Result<usize, usize>)
        requires
            self.wf(),
            !(self.pending is Filter),
        ensures
            match r {
                Ok(t) => {
                    &&& self@.down(rows as int) == Ok::<int, int>(t as int)
                    &&& t == 0 || t < self@.total()
                },
                Err(n) => {
                    &&& self@.down(rows as int) is Err
                    &&& n == state::line_number(self@.down(rows as int)->Err_0)
                },
            },
    {
        if self.wrap {
            let w: usize = self.term_width as usize;
            let ch: usize = self.content_height();
            let lines = self.shown_lines();
            return match wrap::scroll_down_wrapped(
                &lines,
                w,
                self.raw_mode,
                self.top_line,
                rows,
            ) {
                Ok(t) => match wrap::clamp_top_line_wrapped(&lines, w, ch, self.raw_mode, t) {
                    Ok(c) => {
                        if c < self.top_line && self.top_line == wrap::bottom_top_line_wrapped(
                            &lines,
                            w,
                            ch,
                            self.raw_mode,
                        ) {
                            Ok(self.top_line)
                        } else {
                            Ok(c)
                        }
                    },
                    Err(n) => Err(n),
                },
                Err(n) => Err(n),
            };
        }
        let total: usize = self.display_line_count();
        let target: usize = self.top_line.saturating_add(rows);
        proof {
            if self.top_line + rows > usize::MAX {
                assert(self@.total() == total);
                assert(target > total - self@.content_height());
            }
        }
        self.clamp_top_line(target)
    }

    /// Scroll up.
    fn scroll_up(&mut self, rows: usize)
        requires
            old(self).wf(),
        ensures
            final(self)@ == old(self)@.scrolled_up(rows),
            final(self).wf(),
    {
        if self.wrap {
            self.top_line = wrap::scroll_up_wrapped(
                &self.shown_lines(),
                self.term_width as usize,
                self.raw_mode,
                self.top_line,
                rows,
            );
        } else {
            self.top_line = self.top_line.saturating_sub(rows);
        }
    }

    /// Begin a search in the direction of the last one.
    fn search_same_dir(&mut self)
        requires
            old(self).wf(),
            !(old(self).pending is Filter),
        ensures
            final(self)@ == old(self)@.searched(old(self)@.dir == SearchDir::Forward),
            final(self).wf(),
    {
        let forward: bool = self.search_dir == SearchDir::Forward;
        self.do_search(forward);
    }

    /// Begin a search in the direction opposite to the last one.
    fn search_opposite_dir(&mut self)
        requires
            old(self).wf(),
            !(old(self).pending is Filter),
        ensures
            final(self)@ == old(self)@.searched(old(self)@.dir == SearchDir::Backward),
            final(self).wf(),
    {
        let forward: bool = self.search_dir == SearchDir::Backward;
        self.do_search(forward);
    }

    /// Begin a search for the pattern among the lines that are shown, from the last
    /// match or else the top line.
    fn do_search(&mut self, forward: bool)
        requires
            old(self).wf(),
            !(old(self).pending is Filter),
        ensures
            final(self)@ == old(self)@.searched(forward),
            final(self).wf(),
    {
        if self.search.is_none() {
            return;
        }
        assert(self.buffer.lines.len() == self.buffer@.lines.len());
        let from: usize = match self.current_match_line {
            Some(l) => {
                if forward {
                    self.number_of(l + 1)
                } else {
                    self.number_of(l)
                }
            },
            None => self.top_line,
        };
        self.pending = Action::Search { forward, from };
    }

    /// Find the lines that pass the filter, among the lines that were read.
    fn rebuild_filter(&mut self)
        requires
            old(self).wf(),
            old(self).pending is Filter,
        ensures
            final(self)@ == (PagerView {
                filtered: state::matching(
                    old(self)@.filter->0,
                    old(self)@.buffer.lines,
                    old(self)@.buffer.lines.len() as int,
                ),
                ..old(self)@
            }),
            final(self).wf(),
    {
        let mut filtered: Vec<usize> = Vec::new();
        let n: usize = self.buffer.len();
        if let Some(filter) = &self.filter {
            let mut i: usize = 0;
            while i < n
                invariant
                    i <= n,
                    n == self.buffer@.lines.len(),
                    filter.wf(),
                    filtered@ == state::matching(filter@, self.buffer@.lines, i as int),
                decreases n - i,
            {
                if filter.is_match(&self.buffer.lines[i]) {
                    filtered.push(i);
                }
                i = i + 1;
            }
        }
        proof {
            state::law_matching(self@.filter->0, self@.buffer.lines, n as int);
        }
        self.filtered_lines = filtered;
    }

    /// Show all lines again.
    fn clear_filter(&mut self)
        requires
            old(self).wf(),
            !(old(self).pending is Filter),
        ensures
            final(self)@ == (PagerView { filter: None, filtered: Seq::empty(), ..old(self)@ }),
            final(self).wf(),
    {
        self.filter = None;
        self.filtered_lines = Vec::new();
    }

    /// Do what is left to do for the last key, or say what has to be read first.
    /// After `Step::NeedLine` and `Step::NeedAll`, lines go in by `feed`, and this
    /// function is called again.
    pub fn resume(&mut self) -> (r: Step)
        requires
            old(self).wf(),
        ensures
            (final(self)@, r) == old(self)@.advanced(),
            final(self).wf(),
    {
        match self.pending {
            Action::Idle => Step::Continue,
            Action::Search { forward, from } => self.go_on_searching(forward, from),
            Action::Down { rows } => {
                match self.scroll_down(rows) {
                    Ok(t) => {
                        self.top_line = t;
                        self.pending = Action::Idle;
                        Step::Continue
                    },
                    Err(n) => Step::NeedLine(n),
                }
            },
            Action::Bottom => {
                if self.buffer.needed_for_all() > 0 {
                    return Step::NeedAll;
                }
                self.scroll_to_bottom();
                self.pending = Action::Idle;
                Step::Continue
            },
            Action::Filter => {
                if self.buffer.needed_for_all() > 0 {
                    return Step::NeedAll;
                }
                self.rebuild_filter();
                self.top_line = 0;
                self.pending = Action::Idle;
                Step::Continue
            },
        }
    }

    /// Search the lines that are shown, from number `from` on.
    fn go_on_searching(&mut self, forward: bool, from: usize) -> (r: Step)
        requires
            old(self).wf(),
            old(self).pending == (Action::Search { forward, from }),
        ensures
            (final(self)@, r) == old(self)@.advanced(),
            final(self).wf(),
    {
        let found: Option<usize> = match &self.search {
            Some(s) => s.find_next_shown(&self.shown_lines(), from, forward),
            None => None,
        };
        proof {
            let p = self@.search->0;
            if forward {
                search::law_next_match(p, self@.shown().lines, from as int);
            } else {
                search::law_prev_match(p, self@.shown().lines, from as int);
            }
        }
        match found {
            Some(n) => {
                self.current_match_line = self.display_line_idx(n);
                self.top_line = n;
                self.pending = Action::Idle;
                Step::Continue
            },
            None => match search::line_to_read(&self.shown_lines(), from, forward) {
                Some(n) => {
                    if forward {
                        self.pending = Action::Search { forward, from: n };
                    }
                    Step::NeedLine(n)
                },
                None => {
                    self.status_msg = Some("Pattern not found".to_owned());
                    self.pending = Action::Idle;
                    Step::Continue
                },
            },
        }
    }

    /// Whether the columns to the left can be counted after a key.
    pub open spec fn accepts(&self, key: Key) -> bool {
        self.mode == Mode::Normal && key is Right && !self.wrap ==> self.left_col <= usize::MAX
            - 8
    }

    /// Whether the columns to the left can be counted after a key.
    pub fn accepts_key(&self, key: Key) -> (r: bool)
        ensures
            r == self.accepts(key),
    {
        !(self.mode == Mode::Normal && key == Key::Right && !self.wrap) || self.left_col
            <= usize::MAX - 8
    }

    /// Deal with a key: a key that takes lines which are not read yet is dealt with
    /// by `resume` once they are.
    ///
    /// Whether a pattern that the key completes is refused is up to `Search::new`;
    /// `enter_search` and `enter_filter` say what becomes of its answer.
    pub fn handle_key(&mut self, key: Key) -> (r: Step)
        requires
            old(self).wf(),
            old(self).accepts(key),
            old(self).pending is Idle,
        ensures
            final(self).wf(),
            exists|refused: Option<Seq<char>>| #[trigger]
                state::may_refuse(old(self)@.completed(key), refused) && (final(self)@, r) == old(
                    self,
                )@.after_key(key, refused),
    {
        let ghost before = self@;
        match self.mode {
            Mode::Normal => {
                assert(state::may_refuse(before.completed(key), None));
                if self.handle_normal_key(key) {
                    return Step::Quit;
                }
            },
            Mode::SearchInput => {
                self.handle_search_input_key(key);
            },
            Mode::FilterInput => {
                self.handle_filter_input_key(key);
            },
            Mode::Help => {
                assert(state::may_refuse(before.completed(key), None));
                match key {
                    Key::Char('h') | Key::Char('q') | Key::Escape => {
                        self.mode = Mode::Normal;
                    },
                    _ => {},
                }
            },
            Mode::Follow => {
                assert(state::may_refuse(before.completed(key), None));
                if self.handle_follow_key(key) {
                    return Step::Quit;
                }
            },
        }
        self.resume()
    }

    /// Deal with a key in normal mode, as far as it goes at once. Returns whether it
    /// ends the pager.
    #[verifier::rlimit(50)]
    #[verifier::spinoff_prover]
    pub fn handle_normal_key(&mut self, key: Key) -> (r: bool)
        requires
            old(self).wf(),
            old(self).mode == Mode::Normal,
            old(self).accepts(key),
            old(self).pending is Idle,
        ensures
            (final(self)@, r) == old(self)@.normal_key(key),
            final(self).wf(),
    {
        self.status_msg = None;
        match key {
            Key::Char('q') | Key::Ctrl('c') | Key::Escape => {
                return true;
            },
            Key::Char('j') | Key::Down | Key::Enter => {
                self.pending = Action::Down { rows: 1 };
            },
            Key::Char('k') | Key::Up => {
                self.scroll_up(1);
            },
            Key::Char('d') | Key::Ctrl('d') => {
                let rows: usize = self.half_page();
                self.pending = Action::Down { rows };
            },
            Key::Char('u') | Key::Ctrl('u') => {
                let rows: usize = self.half_page();
                self.scroll_up(rows);
            },
            Key::Char(' ') | Key::PageDown | Key::Ctrl('f') => {
                let rows: usize = self.full_page();
                self.pending = Action::Down { rows };
            },
            Key::Char('b') | Key::PageUp | Key::Ctrl('b') => {
                let rows: usize = self.full_page();
                self.scroll_up(rows);
            },
            Key::Char('g') | Key::Home => {
                self.top_line = 0;
                self.left_col = 0;
            },
            Key::Char('G') | Key::End => {
                self.pending = Action::Bottom;
            },
            Key::Right => {
                if !self.wrap {
                    self.left_col = self.left_col + 8;
                }
            },
            Key::Left => {
                if !self.wrap {
                    self.left_col = self.left_col.saturating_sub(8);
                }
            },
            Key::Char('/') => {
                self.start_search_input(SearchDir::Forward);
            },
            Key::Char('?') => {
                self.start_search_input(SearchDir::Backward);
            },
            Key::Char('n') => {
                self.search_same_dir();
            },
            Key::Char('N') => {
                self.search_opposite_dir();
            },
            Key::Char('&') => {
                self.mode = Mode::FilterInput;
                self.filter_input.clear();
            },
            Key::Char('w') => {
                self.wrap = !self.wrap;
                self.left_col = 0;
            },
            Key::Char('F') => {
                self.mode = Mode::Follow;
                self.follow = true;
                self.pending = Action::Bottom;
            },
            Key::Char('h') => {
                self.mode = Mode::Help;
            },
            _ => {},
        }
        false
    }

    /// Half of the rows, at least one.
    fn half_page(&self) -> (r: usize)
        ensures
            r == self@.half_page(),
    {
        let half: usize = self.content_height() / 2;
        if half > 1 {
            half
        } else {
            1
        }
    }

    /// A page less one row, at least one row.
    fn full_page(&self) -> (r: usize)
        ensures
            r == self@.full_page(),
    {
        let ch: usize = self.content_height();
        if ch > 2 {
            ch - 1
        } else {
            1
        }
    }

    /// Begin to type a pattern to search for.
    fn start_search_input(&mut self, dir: SearchDir)
        requires
            old(self).wf(),
        ensures
            final(self)@ == old(self)@.typing_search(dir),
            final(self).wf(),
    {
        self.search_dir = dir;
        self.mode = Mode::SearchInput;
        self.search_input.clear();
        self.history.reset_cursor();
    }

    /// Whether a key ends the pager in follow mode.
    pub fn handle_follow_key(&self, key: Key) -> (r: bool)
        ensures
            r == state::is_quit_key(key),
    {
        key == Key::Char('q') || key == Key::Escape || key == Key::Ctrl('c')
    }

    /// Deal with a key while a pattern to search for is typed, as far as it goes at
    /// once.
    pub fn handle_search_input_key(&mut self, key: Key)
        requires
            old(self).wf(),
            old(self).mode == Mode::SearchInput,
            old(self).pending is Idle,
        ensures
            final(self).wf(),
            exists|refused: Option<Seq<char>>| #[trigger]
                state::may_refuse(old(self)@.completed(key), refused) && final(self)@ == old(
                    self,
                )@.search_input_key(key, refused),
    {
        let ghost before = self@;
        assert(state::may_refuse(before.completed(key), None));
        proof {
            self.search_input.lemma_parts();
        }
        match key {
            Key::Escape | Key::Ctrl('c') => {
                self.mode = Mode::Normal;
            },
            Key::Enter => {
                let pattern: String = self.search_input.content.clone();
                if pattern.as_str().is_empty() {
                    self.mode = Mode::Normal;
                    return;
                }
                let made = Search::new(&pattern);
                assert(state::may_refuse(before.completed(key), refusal(made)));
                self.enter_search(made);
            },
            Key::Up => {
                let recalled: Option<String> = match self.history.prev(
                    &self.search_input.content,
                ) {
                    Some(entry) => Some(entry.to_owned()),
                    None => None,
                };
                if let Some(entry) = recalled {
                    self.search_input.set(&entry);
                }
            },
            Key::Down => {
                let recalled: Option<String> = match self.history.next() {
                    Some(entry) => Some(entry.to_owned()),
                    None => None,
                };
                let line: String = match recalled {
                    Some(entry) => entry,
                    None => self.history.draft().to_owned(),
                };
                self.search_input.set(&line);
            },
            _ => {
                edit(&mut self.search_input, key);
            },
        }
    }

    /// Deal with a pattern to search for that was typed, given the search that was
    /// made for it.
    pub fn enter_search(&mut self, made: Result<Search, String>)
        requires
            old(self).wf(),
            old(self).pending is Idle,
            made matches Ok(s) ==> s.wf() && s@ == old(self)@.search_input.content(),
        ensures
            final(self)@ == old(self)@.search_entered(refusal(made)),
            final(self).wf(),
    {
        proof {
            self.search_input.lemma_parts();
        }
        self.mode = Mode::Normal;
        let pattern: String = self.search_input.content.clone();
        self.history.push(&pattern);
        match made {
            Ok(s) => {
                self.search = Some(s);
                self.current_match_line = None;
                self.search_same_dir();
            },
            Err(e) => {
                self.status_msg = Some(e);
            },
        }
    }

    /// Deal with a key while a filter is typed, as far as it goes at once.
    pub fn handle_filter_input_key(&mut self, key: Key)
        requires
            old(self).wf(),
            old(self).mode == Mode::FilterInput,
            old(self).pending is Idle,
        ensures
            final(self).wf(),
            exists|refused: Option<Seq<char>>| #[trigger]
                state::may_refuse(old(self)@.completed(key), refused) && final(self)@ == old(
                    self,
                )@.filter_input_key(key, refused),
    {
        let ghost before = self@;
        assert(state::may_refuse(before.completed(key), None));
        proof {
            self.filter_input.lemma_parts();
        }
        match key {
            Key::Escape | Key::Ctrl('c') => {
                self.mode = Mode::Normal;
            },
            Key::Enter => {
                let pattern: String = self.filter_input.content.clone();
                if pattern.as_str().is_empty() {
                    self.mode = Mode::Normal;
                    self.clear_filter();
                    return;
                }
                let made = Search::new(&pattern);
                assert(state::may_refuse(before.completed(key), refusal(made)));
                self.enter_filter(made);
            },
            _ => {
                edit(&mut self.filter_input, key);
            },
        }
    }

    /// Deal with a filter that was typed, given the search that was made for it.
    pub fn enter_filter(&mut self, made: Result<Search, String>)
        requires
            old(self).wf(),
            old(self).pending is Idle,
            made matches Ok(s) ==> s.wf() && s@ == old(self)@.filter_input.content(),
        ensures
            final(self)@ == old(self)@.filter_entered(refusal(made)),
            final(self).wf(),
    {
        self.mode = Mode::Normal;
        match made {
            Ok(s) => {
                self.filter = Some(s);
                self.filtered_lines = Vec::new();
                self.pending = Action::Filter;
            },
            Err(e) => {
                self.status_msg = Some(e);
            },
        }
    }

    /// Take in lines that were read. Returns number of new lines.
    pub fn feed(&mut self, reads: Vec<ReadOutcome>) -> (r: usize)
        requires
            old(self).wf(),
        ensures
            final(self)@ == (PagerView {
                buffer: old(self)@.buffer.after(reads@),
                ..old(self)@
            }),
            r == final(self)@.buffer.lines.len() - old(self)@.buffer.lines.len(),
            final(self).wf(),
    {
        let r: usize = self.buffer.read_more(reads);
        assert(self.buffer.lines.len() == self.buffer@.lines.len());
        r
    }

    /// Take in new lines in follow mode, and show the last ones if there are any.
    pub fn poll(&mut self, reads: Vec<ReadOutcome>)
        requires
            old(self).wf(),
            old(self)@.buffer.has_source,
        ensures
            ({
                let v = PagerView { buffer: old(self)@.buffer.polled(reads@), ..old(self)@ };
                final(self)@ == if v.buffer.lines.len() > old(self)@.buffer.lines.len() {
                    v.bottom()
                } else {
                    v
                }
            }),
            final(self).wf(),
    {
        let new_lines: usize = self.buffer.poll_new_lines(reads);
        assert(self.buffer.lines.len() == self.buffer@.lines.len());
        if new_lines > 0 {
            self.scroll_to_bottom();
        }
    }

    /// Begin: follow mode shows the last lines.
    pub fn start(&mut self) -> (r: Step)
        requires
            old(self).wf(),
            old(self).pending is Idle,
        ensures
            (final(self)@, r) == if old(self)@.follow {
                PagerView { pending: Action::Bottom, ..old(self)@ }.advanced()
            } else {
                (old(self)@, Step::Continue)
            },
            final(self).wf(),
    {
        if self.follow {
            self.pending = Action::Bottom;
        }
        self.resume()
    }

    /// Use a screen of the given columns and rows.
    pub fn resize(&mut self, size: (u16, u16))
        requires
            old(self).wf(),
            size.0 >= 1,
            size.1 >= 1,
        ensures
            final(self)@ == (PagerView { width: size.0, height: size.1, ..old(self)@ }),
            final(self).wf(),
    {
        self.term_width = size.0;
        self.term_height = size.1;
    }

    /// How many lines to read before the screen is drawn, so that all lines on it and
    /// the next one get available.
    pub fn needed_for_render(&self) -> (r: usize)
        ensures
            r == if self@.mode != Mode::Help && self@.filter is None
                && self@.buffer.lines.len() <= self@.top + self@.content_height()
                && self@.buffer.can_read() {
                buffer::LINE_BATCH
            } else {
                0
            },
    {
        if self.mode == Mode::Help || self.filter.is_some() {
            return 0;
        }
        assert(self.buffer.lines.len() == self.buffer@.lines.len());
        let last: usize = self.top_line.saturating_add(self.content_height());
        self.buffer.needed_for(last)
    }

    /// What to do after the screen was drawn, given what signals came.
    pub fn next_turn(&self, terminated: bool, resumed: bool, resized: bool) -> (r: Turn)
        ensures
            r == if terminated {
                Turn::Quit
            } else if resumed {
                Turn::Resume
            } else if resized {
                Turn::Resize
            } else if self@.mode == Mode::Follow {
                Turn::PollThenKey
            } else {
                Turn::Key
            },
    {
        if terminated {
            Turn::Quit
        } else if resumed {
            Turn::Resume
        } else if resized {
            Turn::Resize
        } else if self.mode == Mode::Follow {
            Turn::PollThenKey
        } else {
            Turn::Key
        }
    }
}

/// What the pager does next.
#[derive(Debug, Clone, Copy, PartialEq, Eq, Structural)]
pub enum Turn {
    /// End.
    Quit,
    /// Set up the terminal again, ask for its size and draw.
    Resume,
    /// Ask for the size of the terminal and draw.
    Resize,
    /// Look for new lines, then wait for a key for a short time.
    PollThenKey,
    /// Wait for a key.
    Key,
}

/// How long to wait for a key in follow mode, in milliseconds.
pub const FOLLOW_TIMEOUT_MS: i32 = 100;

/// Do what a key does to a line that is typed.
fn edit(e: &mut LineEditor, key: Key)
    requires
        old(e).wf(),
    ensures
        final(e)@ == state::edited(old(e)@, key),
        final(e).wf(),
{
    match key {
        Key::Backspace => e.backspace(),
        Key::Delete => e.delete(),
        Key::Left => e.move_left(),
        Key::Right => e.move_right(),
        Key::Home => e.move_home(),
        Key::End => e.move_end(),
        Key::Char(c) => e.insert(c),
        _ => {},
    }
}

} // verus!

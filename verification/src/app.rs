//! The engine: a state machine over the query buffer, the selected
//! filtering strategy and the selection list. Text-editing events
//! re-filter the candidate set and reset the selection to the top;
//! navigation events move only the selection; terminating events carry
//! the final result.

use vstd::prelude::*;
use crate::contains_filterer::contains_matches;
use crate::contains_filterer::contains_trace;
use crate::contains_filterer::ContainsFilterer;
use crate::fuzzy_filterer::fuzzy_rows;
use crate::fuzzy_filterer::sort_rows_desc;
use crate::fuzzy_filterer::FuzzyFilterer;
use crate::fuzzy_filterer::MatchResult;
use crate::query::word_start;
use crate::query::QueryBuffer;
use crate::selection::SelectionList;
use crate::text::string_from_chars;

verus! {

/// The input signals the engine acts on.
pub enum Key {
    /// Ends the session with no result.
    Cancel,
    /// Ends the session with the selected candidate, or the query text
    /// when nothing is selected.
    Accept,
    /// Ends the session with the query text verbatim, ignoring the
    /// selection.
    AcceptLiteral,
    /// Moves the highlight one item down.
    MoveDown,
    /// Moves the highlight one item up.
    MoveUp,
    /// Moves the cursor one character left.
    CursorLeft,
    /// Moves the cursor one character right.
    CursorRight,
    /// Moves the cursor to the start of the query.
    CursorHome,
    /// Moves the cursor to the end of the query.
    CursorEnd,
    /// A typed character, inserted at the cursor when printable.
    Char(char),
    /// Deletes the character before the cursor.
    Backspace,
    /// Deletes the word before the cursor.
    WordErase,
    /// Empties the query.
    ClearQuery,
    /// Anything else; ignored.
    Other,
}

/// One raw input event: a key together with whether this is a press
/// (key releases and repeats are ignored to avoid double-processing).
pub struct KeyEvent {
    pub press: bool,
    pub key: Key,
}

/// The two states of the engine; a terminated engine carries the final
/// result: the chosen text, or nothing when cancelled.
pub enum EngineState {
    Running,
    Terminated(Option<String>),
}

/// The filtering strategy fixed for the session's lifetime.
pub enum Strategy {
    Contains(ContainsFilterer),
    Fuzzy(FuzzyFilterer),
}

impl Strategy {
    /// The candidate set the strategy was built over.
    pub open spec fn opts(&self) -> Seq<Seq<char>> {
        match self {
            Strategy::Contains(f) => f.opts(),
            Strategy::Fuzzy(f) => f.opts(),
        }
    }

    /// The rows the strategy yields for a query: each retained
    /// candidate with its highlight trace, in the strategy's order.
    pub open spec fn rows(&self, q: Seq<char>) -> Seq<(Seq<char>, Seq<int>)> {
        match self {
            Strategy::Contains(f) => contains_matches(f.opts(), q).map_values(
                |o: Seq<char>| (o, contains_trace(o, q)),
            ),
            Strategy::Fuzzy(f) => sort_rows_desc(fuzzy_rows(f.opts(), q)).map_values(
                |row: (Seq<char>, int, Seq<int>)| (row.0, row.2),
            ),
        }
    }
}

/// A character the engine inserts into the query: the ASCII graphic
/// characters and the space.
pub open spec fn is_printable(c: char) -> bool {
    c == ' ' || ('!' <= c && c <= '~')
}

/// The interactive picker engine.
pub struct App {
    state: EngineState,
    query: QueryBuffer,
    strategy: Strategy,
    filtered: Vec<MatchResult>,
    selection: SelectionList,
}

impl App {
    /// The engine's state.
    pub closed spec fn state_view(&self) -> EngineState {
        self.state
    }

    /// The query buffer.
    pub closed spec fn query_view(&self) -> QueryBuffer {
        self.query
    }

    /// The session's strategy.
    pub closed spec fn strategy_view(&self) -> Strategy {
        self.strategy
    }

    /// The current filtered view: retained candidates with traces.
    pub closed spec fn filtered_rows(&self) -> Seq<(Seq<char>, Seq<int>)> {
        self.filtered@.map_values(|m: MatchResult| m@)
    }

    /// The highlighted index into the filtered view, if any.
    pub closed spec fn selected_view(&self) -> Option<int> {
        self.selection.selected_view()
    }

    /// The engine invariant: the query buffer is well formed, the
    /// filtered view is exactly what the strategy yields for the
    /// current query, and the selection is absent exactly when that
    /// view is empty and otherwise a valid index into it.
    pub open spec fn wf(&self) -> bool {
        &&& self.query_view().wf()
        &&& self.strategy_view().opts().len() > 0
        &&& self.filtered_rows() == self.strategy_view().rows(self.query_view().text_view())
        &&& self.selection_len() == self.filtered_rows().len()
        &&& self.selection_wf()
        &&& (self.selected_view() is None <==> self.filtered_rows().len() == 0)
        &&& (self.selected_view() matches Some(i) ==> 0 <= i < self.filtered_rows().len())
    }

    /// The length the selection tracks.
    pub closed spec fn selection_len(&self) -> int {
        self.selection.len_view()
    }

    /// The selection's own invariant over the current view.
    pub closed spec fn selection_wf(&self) -> bool {
        self.selection.wf()
    }

    /// The view and selection a fresh filtering pass leaves behind:
    /// the strategy's rows for the current query, with the highlight
    /// reset to the top when the view is non-empty and absent when it
    /// is empty.
    pub open spec fn refiltered(&self) -> bool {
        &&& self.filtered_rows() == self.strategy_view().rows(self.query_view().text_view())
        &&& self.selection_len() == self.filtered_rows().len()
        &&& self.selected_view() == if self.filtered_rows().len() > 0 {
            Some(0int)
        } else {
            None::<int>
        }
    }

    /// Re-runs the strategy on the current query, replaces the filtered
    /// view, and resets the selection to the top.
    fn filter_options(&mut self)
        requires
            old(self).query_view().wf(),
        ensures
            final(self).query_view() == old(self).query_view(),
            final(self).strategy_view() == old(self).strategy_view(),
            final(self).state_view() == old(self).state_view(),
            final(self).refiltered(),
            final(self).selection_wf(),
    {
        let qs = string_from_chars(self.query.text());
        let v = match &self.strategy {
            Strategy::Contains(f) => f.filter_with_matches(qs.as_str()),
            Strategy::Fuzzy(f) => f.filter_with_matches(qs.as_str()),
        };
        self.filtered = v;
        let n = self.filtered.len();
        self.selection.reset_to(n);
    }

    /// A fresh engine over the given candidates: empty query, the
    /// filtered view holding what the strategy yields for it, and the
    /// first item highlighted.
    pub fn new(options: Vec<String>, use_fuzzy: bool) -> (r: Self)
        requires
            options@.len() > 0,
        ensures
            r.wf(),
            r.state_view() is Running,
            r.query_view().text_view() == Seq::<char>::empty(),
            r.query_view().cursor_view() == 0,
            r.strategy_view().opts() == options@.map_values(|s: String| s@),
            r.strategy_view() is Fuzzy <==> use_fuzzy,
            r.refiltered(),
    {
        let strategy = if use_fuzzy {
            Strategy::Fuzzy(FuzzyFilterer::new(options))
        } else {
            Strategy::Contains(ContainsFilterer::new(options))
        };
        let mut r = App {
            state: EngineState::Running,
            query: QueryBuffer::new(),
            strategy,
            filtered: Vec::new(),
            selection: SelectionList::new(0),
        };
        r.filter_options();
        r
    }

    /// Moves the highlight one item down, clamping at the last item.
    pub fn select_next(&mut self)
        requires
            old(self).wf(),
        ensures
            final(self).wf(),
            final(self).state_view() == old(self).state_view(),
            final(self).query_view() == old(self).query_view(),
            final(self).strategy_view() == old(self).strategy_view(),
            final(self).filtered_rows() == old(self).filtered_rows(),
            final(self).selected_view() == match old(self).selected_view() {
                Some(i) => if i + 1 < old(self).filtered_rows().len() {
                    Some(i + 1)
                } else {
                    Some(i)
                },
                None => None::<int>,
            },
    {
        self.selection.next();
    }

    /// Moves the highlight one item up, clamping at the first item.
    pub fn select_previous(&mut self)
        requires
            old(self).wf(),
        ensures
            final(self).wf(),
            final(self).state_view() == old(self).state_view(),
            final(self).query_view() == old(self).query_view(),
            final(self).strategy_view() == old(self).strategy_view(),
            final(self).filtered_rows() == old(self).filtered_rows(),
            final(self).selected_view() == match old(self).selected_view() {
                Some(i) => if i > 0 {
                    Some(i - 1)
                } else {
                    Some(i)
                },
                None => None::<int>,
            },
    {
        self.selection.previous();
    }

    /// The text of the highlighted candidate, or `None` when the
    /// filtered view is empty.
    pub fn select_current(&self) -> (r: Option<String>)
        requires
            self.wf(),
        ensures
            match r {
                Some(s) => self.selected_view() matches Some(i) && s@ == self.filtered_rows()[i].0,
                None => self.selected_view() is None,
            },
    {
        match self.selection.selected() {
            Some(i) => {
                proof {
                    assert(self.filtered@.map_values(|m: MatchResult| m@)[i as int]
                        == self.filtered@[i as int]@);
                }
                Some(self.filtered[i].text.clone())
            },
            None => None,
        }
    }

    /// Applies one input event. Key releases and repeats are ignored;
    /// a press acts according to the first matching transition rule:
    /// terminating signals freeze the result, navigation moves only the
    /// highlight, cursor signals move only the cursor, and text edits
    /// mutate the query, re-filter, and reset the selection to the top.
    pub fn handle_event(&mut self, event: KeyEvent)
        requires
            old(self).wf(),
            old(self).state_view() is Running,
        ensures
            final(self).wf(),
            final(self).strategy_view() == old(self).strategy_view(),
            !event.press ==> *final(self) == *old(self),
            event.press ==> match event.key {
                Key::Cancel => final(self).state_view() == EngineState::Terminated(None::<String>)
                    && final(self).query_view() == old(self).query_view() && final(self).filtered_rows() == old(self).filtered_rows(),
                Key::Accept => final(self).query_view() == old(self).query_view() && final(self).filtered_rows() == old(self).filtered_rows() && (match final(self).state_view() {
                    EngineState::Terminated(r) => match old(self).selected_view() {
                        Some(i) => r matches Some(s) && s@ == old(self).filtered_rows()[i].0,
                        None => r matches Some(s) && s@ == old(self).query_view().text_view(),
                    },
                    EngineState::Running => false,
                }),
                Key::AcceptLiteral => final(self).query_view() == old(self).query_view() && (
                match final(self).state_view() {
                    EngineState::Terminated(r) => r matches Some(s) && s@ == old(self).query_view().text_view(),
                    EngineState::Running => false,
                }),
                Key::MoveDown => final(self).state_view() is Running && final(self).query_view()
                    == old(self).query_view() && final(self).filtered_rows() == old(self).filtered_rows() && final(self).selected_view() == (match old(self).selected_view() {
                    Some(i) => if i + 1 < old(self).filtered_rows().len() {
                        Some(i + 1)
                    } else {
                        Some(i)
                    },
                    None => None::<int>,
                }),
                Key::MoveUp => final(self).state_view() is Running && final(self).query_view()
                    == old(self).query_view() && final(self).filtered_rows() == old(self).filtered_rows() && final(self).selected_view() == (match old(self).selected_view() {
                    Some(i) => if i > 0 {
                        Some(i - 1)
                    } else {
                        Some(i)
                    },
                    None => None::<int>,
                }),
                Key::CursorLeft => final(self).state_view() is Running && cursor_moved(
                    old(self),
                    final(self),
                    if old(self).query_view().cursor_view() > 0 {
                        old(self).query_view().cursor_view() - 1
                    } else {
                        0int
                    },
                ),
                Key::CursorRight => final(self).state_view() is Running && cursor_moved(
                    old(self),
                    final(self),
                    if old(self).query_view().cursor_view() < old(self).query_view().text_view().len() {
                        old(self).query_view().cursor_view() + 1
                    } else {
                        old(self).query_view().cursor_view()
                    },
                ),
                Key::CursorHome => final(self).state_view() is Running && cursor_moved(
                    old(self),
                    final(self),
                    0int,
                ),
                Key::CursorEnd => final(self).state_view() is Running && cursor_moved(
                    old(self),
                    final(self),
                    old(self).query_view().text_view().len() as int,
                ),
                Key::Char(c) => if is_printable(c) {
                    final(self).state_view() is Running && final(self).query_view().text_view()
                        == old(self).query_view().text_view().insert(
                        old(self).query_view().cursor_view(),
                        c,
                    ) && final(self).query_view().cursor_view() == old(self).query_view().cursor_view() + 1 && final(self).refiltered()
                } else {
                    *final(self) == *old(self)
                },
                Key::Backspace => final(self).state_view() is Running && (if old(self).query_view().cursor_view() == 0 {
                    final(self).query_view() == old(self).query_view()
                } else {
                    final(self).query_view().text_view() == old(self).query_view().text_view().remove(old(self).query_view().cursor_view() - 1)
                        && final(self).query_view().cursor_view() == old(self).query_view().cursor_view() - 1
                }) && final(self).refiltered(),
                Key::WordErase => final(self).state_view() is Running && final(self).query_view().cursor_view() == word_start(
                    old(self).query_view().text_view(),
                    old(self).query_view().cursor_view(),
                ) && final(self).query_view().text_view() == old(self).query_view().text_view().subrange(
                    0,
                    word_start(
                        old(self).query_view().text_view(),
                        old(self).query_view().cursor_view(),
                    ),
                ) + old(self).query_view().text_view().subrange(
                    old(self).query_view().cursor_view(),
                    old(self).query_view().text_view().len() as int,
                ) && final(self).refiltered(),
                Key::ClearQuery => final(self).state_view() is Running && final(self).query_view().text_view() == Seq::<char>::empty() && final(self).query_view().cursor_view() == 0 && final(self).refiltered(),
                Key::Other => *final(self) == *old(self),
            },
    {
        if !event.press {
            return ;
        }
        match event.key {
            Key::Cancel => {
                self.state = EngineState::Terminated(None);
            },
            Key::Accept => {
                let chosen = match self.select_current() {
                    Some(s) => Some(s),
                    None => Some(string_from_chars(self.query.text())),
                };
                self.state = EngineState::Terminated(chosen);
            },
            Key::AcceptLiteral => {
                self.state = EngineState::Terminated(
                    Some(string_from_chars(self.query.text())),
                );
            },
            Key::MoveDown => {
                self.select_next();
            },
            Key::MoveUp => {
                self.select_previous();
            },
            Key::CursorLeft => {
                self.query.move_left();
            },
            Key::CursorRight => {
                self.query.move_right();
            },
            Key::CursorHome => {
                self.query.move_home();
            },
            Key::CursorEnd => {
                self.query.move_end();
            },
            Key::Char(c) => {
                if c == ' ' || ('!' <= c && c <= '~') {
                    self.query.insert(c);
                    self.filter_options();
                }
            },
            Key::Backspace => {
                self.query.backspace();
                self.filter_options();
            },
            Key::WordErase => {
                self.query.delete_word_back();
                self.filter_options();
            },
            Key::ClearQuery => {
                self.query.clear();
                self.filter_options();
            },
            Key::Other => {},
        }
    }

    /// Whether the engine is still accepting events.
    pub fn is_running(&self) -> (r: bool)
        ensures
            r <==> self.state_view() is Running,
    {
        match &self.state {
            EngineState::Running => true,
            EngineState::Terminated(_) => false,
        }
    }

    /// The final result of a terminated session: the chosen text, or
    /// `None` when the session was cancelled.
    pub fn result(&self) -> (r: Option<String>)
        requires
            self.state_view() is Terminated,
        ensures
            match self.state_view() {
                EngineState::Terminated(res) => match r {
                    Some(s) => res matches Some(t) && s@ == t@,
                    None => res is None,
                },
                EngineState::Running => false,
            },
    {
        match &self.state {
            EngineState::Terminated(Some(s)) => Some(s.clone()),
            EngineState::Terminated(None) => None,
            EngineState::Running => unreached(),
        }
    }

    /// The query text, for rendering.
    pub fn query_text(&self) -> (r: String)
        ensures
            r@ == self.query_view().text_view(),
    {
        string_from_chars(self.query.text())
    }

    /// The cursor offset into the query text, in characters.
    pub fn cursor_offset(&self) -> (r: usize)
        ensures
            r as int == self.query_view().cursor_view(),
    {
        self.query.cursor()
    }

    /// The filtered view: retained candidates with highlight traces.
    pub fn matches(&self) -> (r: &Vec<MatchResult>)
        ensures
            r@.map_values(|m: MatchResult| m@) == self.filtered_rows(),
    {
        &self.filtered
    }

    /// The highlighted index into the filtered view, if any.
    pub fn selected_index(&self) -> (r: Option<usize>)
        ensures
            match r {
                Some(i) => self.selected_view() == Some(i as int),
                None => self.selected_view() is None,
            },
    {
        self.selection.selected()
    }
}

/// Only the cursor moved: same state, text, view and selection, with
/// the cursor now at `pos`.
pub open spec fn cursor_moved(pre: &App, post: &App, pos: int) -> bool {
    &&& post.query_view().text_view() == pre.query_view().text_view()
    &&& post.query_view().cursor_view() == pos
    &&& post.filtered_rows() == pre.filtered_rows()
    &&& post.selected_view() == pre.selected_view()
}

} // verus!

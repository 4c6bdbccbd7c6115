//! The interactive search session: up to five chained filter buffers
//! ("dimensions"), a result view kept in lockstep with the active
//! filters, a selection cursor, and a key-driven state machine that
//! either terminates with a selected command or with no selection.

use vstd::prelude::*;

use crate::history::{filter_result, lemma_filter_extend_empty, str_views, views, EntryView,
    HistoryEntry, HistoryManager};
use crate::text::{string_pop_char, string_push_char};
use crate::Error;

verus! {

/// One discrete input event of the session.
#[derive(Debug, Clone, Copy)]
pub enum InputEvent {
    /// Terminate with no selection.
    CtrlC,
    /// Terminate with no selection.
    Escape,
    /// Move the selection up.
    Up,
    /// Move the selection down.
    Down,
    /// Select the highlighted command and terminate.
    Enter,
    /// Advance to the next filter dimension.
    CtrlR,
    /// Append a character to the current filter buffer.
    Char(char),
    /// Remove a character, or retreat one dimension.
    Backspace,
    /// Any other key; ignored.
    Other,
}

/// The mathematical image of a session.
pub struct AppView {
    /// The history set the session searches.
    pub entries: Seq<EntryView>,
    /// The five filter buffers.
    pub filters: Seq<Seq<char>>,
    /// The dimension currently receiving keystrokes.
    pub current_dimension: int,
    /// The result view.
    pub filtered: Seq<EntryView>,
    /// The selection cursor into the result view.
    pub selected: int,
    /// Whether the session has terminated.
    pub should_quit: bool,
    /// The selected command, once one is chosen.
    pub selected_command: Option<Seq<char>>,
}

/// The filters the session composes: every buffer up to and including
/// the current dimension.
pub open spec fn active_filters(v: AppView) -> Seq<Seq<char>> {
    v.filters.subrange(0, v.current_dimension + 1)
}

/// Well-formedness: five buffers, the current dimension in range, the
/// cursor non-negative, and every buffer past the current one empty.
pub open spec fn app_wf(v: AppView) -> bool {
    &&& v.filters.len() == 5
    &&& 0 <= v.current_dimension < 5
    &&& 0 <= v.selected
    &&& (forall|d: int| v.current_dimension < d < 5 ==> v.filters[d].len() == 0)
}

/// The session invariant: the result view is exactly the filter
/// engine's result over the active filters, and the cursor is a valid
/// index whenever the result view is non-empty.
pub open spec fn app_synced(v: AppView) -> bool {
    &&& v.filtered == filter_result(v.entries, active_filters(v))
    &&& (v.filtered.len() > 0 ==> v.selected < v.filtered.len())
}

/// Recomputing the result view from the active filters, clamping the
/// cursor when it fell out of range.
pub open spec fn update_view(v: AppView) -> AppView {
    let nf = filter_result(v.entries, active_filters(v));
    AppView {
        filtered: nf,
        selected: if nf.len() > 0 && v.selected >= nf.len() {
            nf.len() - 1
        } else {
            v.selected
        },
        ..v
    }
}

/// The transition of one input event, as the session's tables give it.
pub open spec fn step(v: AppView, ev: InputEvent) -> AppView {
    match ev {
        InputEvent::CtrlC => AppView { should_quit: true, ..v },
        InputEvent::Escape => AppView { should_quit: true, ..v },
        InputEvent::Up => if v.filtered.len() > 0 {
            AppView {
                selected: if v.selected > 0 {
                    v.selected - 1
                } else {
                    0
                },
                ..v
            }
        } else {
            v
        },
        InputEvent::Down => if v.filtered.len() > 0 {
            AppView {
                selected: if v.selected + 1 < v.filtered.len() {
                    v.selected + 1
                } else {
                    v.filtered.len() - 1
                },
                ..v
            }
        } else {
            v
        },
        InputEvent::Enter => if v.filtered.len() > 0 {
            AppView {
                selected_command: Some(v.filtered[v.selected].command),
                should_quit: true,
                ..v
            }
        } else {
            v
        },
        InputEvent::CtrlR => if v.filters[v.current_dimension].len() > 0 && v.current_dimension
            < 4 {
            AppView { current_dimension: v.current_dimension + 1, ..v }
        } else {
            v
        },
        InputEvent::Char(c) => update_view(
            AppView {
                filters: v.filters.update(
                    v.current_dimension,
                    v.filters[v.current_dimension].push(c),
                ),
                ..v
            },
        ),
        InputEvent::Backspace => if v.filters[v.current_dimension].len() > 0 {
            update_view(
                AppView {
                    filters: v.filters.update(
                        v.current_dimension,
                        v.filters[v.current_dimension].drop_last(),
                    ),
                    ..v
                },
            )
        } else if v.current_dimension > 0 {
            AppView { current_dimension: v.current_dimension - 1, ..v }
        } else {
            v
        },
        InputEvent::Other => v,
    }
}

/// Whatever the event, a well-formed synced session stays well-formed
/// and synced: dimension progression, cursor bounds and the
/// result-view invariant are preserved by every transition.
pub proof fn lemma_step_preserves_invariant(v: AppView, ev: InputEvent)
    requires
        app_wf(v),
        app_synced(v),
    ensures
        app_wf(step(v, ev)),
        app_synced(step(v, ev)),
{
    let w = step(v, ev);
    match ev {
        InputEvent::CtrlR => {
            if v.filters[v.current_dimension].len() > 0 && v.current_dimension < 4 {
                assert(active_filters(w) =~= active_filters(v).push(
                    v.filters[v.current_dimension + 1],
                ));
                assert(v.filters[v.current_dimension + 1] =~= Seq::<char>::empty());
                lemma_filter_extend_empty(v.entries, active_filters(v));
            }
        },
        InputEvent::Char(c) => {
            let m = AppView {
                filters: v.filters.update(
                    v.current_dimension,
                    v.filters[v.current_dimension].push(c),
                ),
                ..v
            };
            assert(app_wf(m));
            lemma_update_view_invariant(m);
        },
        InputEvent::Backspace => {
            if v.filters[v.current_dimension].len() > 0 {
                let m = AppView {
                    filters: v.filters.update(
                        v.current_dimension,
                        v.filters[v.current_dimension].drop_last(),
                    ),
                    ..v
                };
                assert(app_wf(m));
                lemma_update_view_invariant(m);
            } else if v.current_dimension > 0 {
                assert(active_filters(v) =~= active_filters(w).push(
                    v.filters[v.current_dimension],
                ));
                assert(v.filters[v.current_dimension] =~= Seq::<char>::empty());
                lemma_filter_extend_empty(v.entries, active_filters(w));
            }
        },
        _ => {},
    }
}

/// Recomputing the result view restores the session invariant.
pub proof fn lemma_update_view_invariant(v: AppView)
    requires
        app_wf(v),
    ensures
        app_wf(update_view(v)),
        app_synced(update_view(v)),
{
}

/// The interactive session state.
#[derive(Debug)]
pub struct App {
    history_manager: HistoryManager,
    filters: Vec<String>,
    current_dimension: usize,
    filtered_entries: Vec<HistoryEntry>,
    selected_index: usize,
    should_quit: bool,
    selected_command: Option<String>,
}

impl View for App {
    type V = AppView;

    closed spec fn view(&self) -> AppView {
        AppView {
            entries: self.history_manager@,
            filters: str_views(self.filters@),
            current_dimension: self.current_dimension as int,
            filtered: views(self.filtered_entries@),
            selected: self.selected_index as int,
            should_quit: self.should_quit,
            selected_command: match self.selected_command {
                Some(c) => Some(c@),
                None => None,
            },
        }
    }
}

impl App {
    /// Starts a session over a parsed history set: five empty filter
    /// buffers, dimension zero active, nothing filtered or selected
    /// yet.  The result view is filled by the first `update_filters`.
    pub fn new(history_manager: HistoryManager) -> (r: App)
        ensures
            app_wf(r@),
            r@.entries == history_manager@,
            r@.filters.len() == 5,
            forall|d: int| 0 <= d < 5 ==> r@.filters[d].len() == 0,
            r@.current_dimension == 0,
            r@.filtered.len() == 0,
            r@.selected == 0,
            !r@.should_quit,
            r@.selected_command is None,
    {
        let mut filters: Vec<String> = Vec::new();
        let mut i: usize = 0;
        while i < 5
            invariant
                i <= 5,
                filters@.len() == i,
                forall|d: int| 0 <= d < i ==> filters@[d]@.len() == 0,
            decreases 5 - i,
        {
            filters.push(String::new());
            i += 1;
        }
        App {
            history_manager,
            filters,
            current_dimension: 0,
            filtered_entries: Vec::new(),
            selected_index: 0,
            should_quit: false,
            selected_command: None,
        }
    }

    /// Recomputes the result view from the filters up to the current
    /// dimension, clamping the cursor when it fell out of range.
    /// Filtering is total, so this always succeeds.
    pub fn update_filters(&mut self) -> (r: Result<(), Error>)
        requires
            app_wf(old(self)@),
        ensures
            r matches Ok(()),
            final(self)@ == update_view(old(self)@),
            app_wf(final(self)@),
            app_synced(final(self)@),
    {
        proof {
            lemma_update_view_invariant(old(self)@);
        }
        let k = self.current_dimension + 1;
        let mut active: Vec<String> = Vec::new();
        let mut i: usize = 0;
        while i < k
            invariant
                *self == *old(self),
                app_wf(self@),
                k == self.current_dimension + 1,
                i <= k <= 5,
                self@.filters.len() == 5,
                str_views(active@) == self@.filters.subrange(0, i as int),
            decreases k - i,
        {
            let ghost before = str_views(active@);
            active.push(self.filters[i].clone());
            proof {
                assert(str_views(active@) =~= before.push(self@.filters[i as int]));
                assert(self@.filters.subrange(0, i + 1) =~= self@.filters.subrange(
                    0,
                    i as int,
                ).push(self@.filters[i as int]));
            }
            i += 1;
        }
        assert(str_views(active@) == active_filters(old(self)@));
        match self.history_manager.filter_multiple(&active) {
            Ok(v) => {
                self.filtered_entries = v;
                if self.filtered_entries.len() > 0 && self.selected_index
                    >= self.filtered_entries.len() {
                    self.selected_index = self.filtered_entries.len() - 1;
                }
                Ok(())
            },
            Err(e) => Err(e),
        }
    }

    /// Processes one input event, as the transition table gives it.
    /// Every transition is total; the session invariant is preserved.
    pub fn handle_key_event(&mut self, event: InputEvent) -> (r: Result<(), Error>)
        requires
            app_wf(old(self)@),
            app_synced(old(self)@),
        ensures
            r matches Ok(()),
            final(self)@ == step(old(self)@, event),
            app_wf(final(self)@),
            app_synced(final(self)@),
    {
        proof {
            lemma_step_preserves_invariant(old(self)@, event);
        }
        match event {
            InputEvent::CtrlC => {
                self.should_quit = true;
                Ok(())
            },
            InputEvent::Escape => {
                self.should_quit = true;
                Ok(())
            },
            InputEvent::Up => {
                if self.filtered_entries.len() > 0 {
                    if self.selected_index > 0 {
                        self.selected_index = self.selected_index - 1;
                    }
                }
                Ok(())
            },
            InputEvent::Down => {
                if self.filtered_entries.len() > 0 {
                    if self.selected_index + 1 < self.filtered_entries.len() {
                        self.selected_index = self.selected_index + 1;
                    } else {
                        self.selected_index = self.filtered_entries.len() - 1;
                    }
                }
                Ok(())
            },
            InputEvent::Enter => {
                if self.filtered_entries.len() > 0 {
                    self.selected_command = Some(
                        self.filtered_entries[self.selected_index].command.clone(),
                    );
                    self.should_quit = true;
                }
                Ok(())
            },
            InputEvent::CtrlR => {
                if !self.filters[self.current_dimension].as_str().is_empty()
                    && self.current_dimension < 4 {
                    self.current_dimension = self.current_dimension + 1;
                }
                Ok(())
            },
            InputEvent::Char(c) => {
                let cd = self.current_dimension;
                let ghost old_filters = str_views(self.filters@);
                let mut buf = self.filters.remove(cd);
                string_push_char(&mut buf, c);
                self.filters.insert(cd, buf);
                proof {
                    assert(str_views(self.filters@) =~= old_filters.update(
                        cd as int,
                        old_filters[cd as int].push(c),
                    ));
                }
                self.update_filters()
            },
            InputEvent::Backspace => {
                let cd = self.current_dimension;
                if !self.filters[cd].as_str().is_empty() {
                    let ghost old_filters = str_views(self.filters@);
                    let mut buf = self.filters.remove(cd);
                    let _ = string_pop_char(&mut buf);
                    self.filters.insert(cd, buf);
                    proof {
                        assert(str_views(self.filters@) =~= old_filters.update(
                            cd as int,
                            old_filters[cd as int].drop_last(),
                        ));
                    }
                    self.update_filters()
                } else {
                    if cd > 0 {
                        self.current_dimension = cd - 1;
                    }
                    Ok(())
                }
            },
            InputEvent::Other => Ok(()),
        }
    }

    /// The filter buffer of one dimension.
    pub fn filter(&self, dimension: usize) -> (r: &str)
        requires
            app_wf(self@),
            dimension < 5,
        ensures
            r@ == self@.filters[dimension as int],
    {
        self.filters[dimension].as_str()
    }

    /// The dimension currently receiving keystrokes.
    pub fn current_dimension(&self) -> (r: usize)
        ensures
            r == self@.current_dimension,
    {
        self.current_dimension
    }

    /// How many filter dimensions a session has.
    pub fn max_dimensions(&self) -> (r: usize)
        ensures
            r == 5,
    {
        5
    }

    /// The current result view.
    pub fn filtered_entries(&self) -> (r: &Vec<HistoryEntry>)
        ensures
            views(r@) == self@.filtered,
    {
        &self.filtered_entries
    }

    /// The selection cursor.
    pub fn selected_index(&self) -> (r: usize)
        ensures
            r == self@.selected,
    {
        self.selected_index
    }

    /// Whether the session has terminated.
    pub fn should_quit(&self) -> (r: bool)
        ensures
            r == self@.should_quit,
    {
        self.should_quit
    }

    /// The selected command, once one was chosen.
    pub fn selected_command(&self) -> (r: Option<&str>)
        ensures
            match r {
                Some(s) => self@.selected_command == Some(s@),
                None => self@.selected_command is None,
            },
    {
        match &self.selected_command {
            Some(c) => Some(c.as_str()),
            None => None,
        }
    }
}

} // verus!

use vstd::prelude::*;

use std::time::Duration;

use crate::history::{after_push, HistoryRing};
use crate::process::{sort_processes, sorted_rows, views, ProcessInfo, ProcessSort, ProcessView};
use crate::search::{lower_of, lowercase, matches_folded, text_matches};
use crate::snapshot::{default_descending, MetricsSample, SysCache};
use crate::sorting::lemma_stable_sort_multiset;
use crate::tree::{has_pid, lemma_tree_order, shifted, tree_indices};

verus! {

/// The modal dialog that is open, if any.
pub enum PopupState {
    Closed,
    Help,
    Kill { pid: u32, name: String },
}

/// What key presses currently do.
#[derive(Clone, Copy, Debug, PartialEq, Eq, Structural)]
pub enum InputMode {
    Normal,
    Editing,
    Popup,
}

/// A key press, as far as the dashboard tells keys apart.
#[derive(Clone, Copy, Debug, PartialEq, Eq, Structural)]
pub enum Key {
    Char(char),
    Ctrl(char),
    Up,
    Down,
    Enter,
    Esc,
    Backspace,
    Tab,
    Other,
}

/// The outside work that a key press asks for.
#[derive(Clone, Copy, Debug, PartialEq, Eq, Structural)]
pub enum Effect {
    Nothing,
    Kill(u32),
}

/// Relies on `String::push`: appends one character.
#[verifier::external_body]
fn push_char(s: &mut String, c: char)
    ensures
        final(s)@ == old(s)@.push(c),
{
    s.push(c);
}

/// Relies on `String::pop`: removes and returns the last character, and
/// returns `None` on an empty string, which it leaves as it is.
#[verifier::external_body]
fn pop_char(s: &mut String) -> (r: Option<char>)
    ensures
        old(s)@.len() == 0 ==> r is None && final(s)@ == old(s)@,
        old(s)@.len() > 0 ==> r == Some(old(s)@.last()) && final(s)@ == old(s)@.drop_last(),
{
    s.pop()
}

/// The rows whose lower-cased name or pid contains the lower-cased search.
pub open spec fn matching_rows(rows: Seq<ProcessView>, query_folded: Seq<char>) -> Seq<ProcessView>
    decreases rows.len(),
{
    if rows.len() == 0 {
        rows
    } else if text_matches(query_folded, lower_of(rows.last().name), rows.last().pid) {
        matching_rows(rows.drop_last(), query_folded).push(rows.last())
    } else {
        matching_rows(rows.drop_last(), query_folded)
    }
}

/// The rows shown: those matching the search, sorted by the key in the
/// given direction; in tree order they keep the order they come in.
pub open spec fn projection(
    rows: Seq<ProcessView>,
    query: Seq<char>,
    key: ProcessSort,
    descending: bool,
) -> Seq<ProcessView> {
    let shown = matching_rows(rows, lower_of(query));
    if key == ProcessSort::Tree {
        shown
    } else {
        sorted_rows(shown, key, descending)
    }
}

/// Projects rows through a search and a sort.
pub fn project(rows: &[ProcessInfo], query: &str, key: ProcessSort, descending: bool) -> (r: Vec<ProcessInfo>)
    ensures
        views(r@) == projection(views(rows@), query@, key, descending),
{
    let folded = lowercase(query);
    let ghost q = lower_of(query@);
    let ghost all = views(rows@);
    let mut shown: Vec<ProcessInfo> = Vec::new();
    let mut i: usize = 0;
    while i < rows.len()
        invariant
            i <= rows@.len(),
            all == views(rows@),
            folded@ == q,
            views(shown@) == matching_rows(all.take(i as int), q),
        decreases rows@.len() - i,
    {
        assert(all.take(i + 1).drop_last() =~= all.take(i as int));
        assert(all.take(i + 1).last() == rows@[i as int]@);
        let name = lowercase(rows[i].name.as_str());
        if matches_folded(folded.as_str(), name.as_str(), rows[i].pid) {
            let ghost prev = shown@;
            let row = rows[i].duplicate();
            shown.push(row);
            assert(views(shown@) =~= views(prev).push(row@));
        }
        i = i + 1;
    }
    assert(all.take(rows@.len() as int) =~= all);
    if key == ProcessSort::Tree {
        shown
    } else {
        sort_processes(shown, key, descending)
    }
}

/// The key after `key` when cycling: CPU, memory, pid, name, user, tree.
pub open spec fn next_key(key: ProcessSort) -> ProcessSort {
    match key {
        ProcessSort::Cpu => ProcessSort::Memory,
        ProcessSort::Memory => ProcessSort::Pid,
        ProcessSort::Pid => ProcessSort::Name,
        ProcessSort::Name => ProcessSort::User,
        ProcessSort::User => ProcessSort::Tree,
        ProcessSort::Tree => ProcessSort::Cpu,
    }
}

/// The cursor after moving down over `n` rows: one further, held at the
/// last row; unchanged when there are no rows.
pub open spec fn moved_down(sel: usize, n: nat) -> usize {
    if n == 0 {
        sel
    } else if sel + 1 >= n {
        (n - 1) as usize
    } else {
        (sel + 1) as usize
    }
}

/// The cursor after moving up over `n` rows: one back, held at the first
/// row (and at the last, if it was past it); unchanged when there are no rows.
pub open spec fn moved_up(sel: usize, n: nat) -> usize {
    if n == 0 {
        sel
    } else if sel == 0 {
        0
    } else if sel - 1 >= n {
        (n - 1) as usize
    } else {
        (sel - 1) as usize
    }
}

/// The cursor held within `n` rows.
pub open spec fn clamped(sel: usize, n: nat) -> usize {
    if n > 0 && sel >= n {
        (n - 1) as usize
    } else {
        sel
    }
}

/// The position of the first row with pid `pid`, if any.
pub open spec fn position_of_pid(rows: Seq<ProcessView>, pid: u32) -> Option<nat>
    decreases rows.len(),
{
    if rows.len() == 0 {
        None
    } else if rows[0].pid == pid {
        Some(0)
    } else {
        shifted(position_of_pid(rows.drop_first(), pid), 1)
    }
}

/// The cursor once the rows shown have changed: on the row of the process
/// it was on, if that process is still shown; otherwise held within the rows.
pub open spec fn followed(sel: usize, pid: Option<u32>, rows: Seq<ProcessView>) -> usize {
    match pid {
        Some(p) => match position_of_pid(rows, p) {
            Some(k) => k as usize,
            None => clamped(sel, rows.len()),
        },
        None => clamped(sel, rows.len()),
    }
}

proof fn lemma_position_of_pid(rows: Seq<ProcessView>, pid: u32, i: int)
    requires
        0 <= i <= rows.len(),
        forall|k: int| 0 <= k < i ==> rows[k].pid != pid,
    ensures
        position_of_pid(rows, pid) == shifted(position_of_pid(rows.skip(i), pid), i as nat),
    decreases i,
{
    if i == 0 {
        assert(rows.skip(0) =~= rows);
    } else {
        lemma_position_of_pid(rows.drop_first(), pid, i - 1);
        assert(rows.drop_first().skip(i - 1) =~= rows.skip(i));
    }
}

/// Finds the position of the first row with pid `pid`.
pub fn find_row(rows: &Vec<ProcessInfo>, pid: u32) -> (r: Option<usize>)
    ensures
        match r {
            Some(k) => position_of_pid(views(rows@), pid) == Some(k as nat),
            None => position_of_pid(views(rows@), pid) is None,
        },
{
    let ghost s = views(rows@);
    let mut i: usize = 0;
    while i < rows.len()
        invariant
            s == views(rows@),
            s.len() == rows@.len(),
            i <= rows@.len(),
            forall|k: int| 0 <= k < i ==> s[k].pid != pid,
        decreases rows@.len() - i,
    {
        if rows[i].pid == pid {
            proof {
                lemma_position_of_pid(s, pid, i as int);
                assert(s.skip(i as int)[0] == s[i as int]);
            }
            return Some(i);
        }
        i = i + 1;
    }
    proof {
        lemma_position_of_pid(s, pid, s.len() as int);
    }
    None
}

/// Whether a key is one of the given characters.
pub open spec fn is_char_of(key: Key, a: char, b: char) -> bool {
    key == Key::Char(a) || key == Key::Char(b)
}

/// The dashboard: the metrics cache, the chart histories, and the state
/// of the interaction (mode, dialog, search, sort direction, cursor).
/// The cursor is an index into the rows shown, but it follows the process
/// it is on, by pid, whenever those rows change (a tick, a search edit, a
/// new sort), rather than staying at its position.
pub struct App {
    pub sys: SysCache,
    pub tick_rate: Duration,
    pub should_quit: bool,
    pub selected: usize,
    pub descending: bool,
    pub cpu_history: HistoryRing,
    pub net_rx_history: HistoryRing,
    pub net_tx_history: HistoryRing,
    pub search_query: String,
    pub input_mode: InputMode,
    pub popup: PopupState,
}

impl App {
    pub open spec fn wf(&self) -> bool {
        self.sys.wf()
    }

    /// The rows shown, in the order shown.
    pub open spec fn shown(&self) -> Seq<ProcessView> {
        projection(views(self.sys.procs@), self.search_query@, self.sys.sort_by, self.descending)
    }

    /// The pid of the row under the cursor, if the cursor is on a row.
    pub open spec fn selected_pid(&self) -> Option<u32> {
        if self.selected < self.shown().len() {
            Some(self.shown()[self.selected as int].pid)
        } else {
            None
        }
    }

    /// What a key press does in normal mode.
    pub open spec fn normal_step(old: App, key: Key, new: App) -> bool {
        let n = old.shown().len();
        if is_char_of(key, 'q', 'Q') || key == Key::Ctrl('c') {
            new == (App { should_quit: true, ..old })
        } else if key == Key::Down {
            new == (App { selected: moved_down(old.selected, n), ..old })
        } else if key == Key::Up {
            new == (App { selected: moved_up(old.selected, n), ..old })
        } else if key == Key::Char('k') {
            if old.selected < n {
                let row = old.shown()[old.selected as int];
                &&& new.popup matches PopupState::Kill { pid, name } && pid == row.pid && name@
                    == row.name
                &&& new == (App { popup: new.popup, input_mode: InputMode::Popup, ..old })
            } else {
                new == old
            }
        } else if key == Key::Char('/') {
            new == (App { input_mode: InputMode::Editing, ..old })
        } else if key == Key::Tab || key == Key::Char('s') {
            let k = next_key(old.sys.sort_by);
            &&& new.sys.wf()
            &&& new.sys == (SysCache { procs: new.sys.procs, sort_by: k, ..old.sys })
            &&& new == (App {
                sys: new.sys,
                descending: default_descending(k),
                selected: new.selected,
                ..old
            })
            &&& new.selected == followed(old.selected, old.selected_pid(), new.shown())
        } else if key == Key::Char('r') {
            &&& new == (App { descending: !old.descending, selected: new.selected, ..old })
            &&& new.selected == followed(old.selected, old.selected_pid(), new.shown())
        } else if key == Key::Char('?') {
            new == (App { popup: PopupState::Help, input_mode: InputMode::Popup, ..old })
        } else {
            new == old
        }
    }

    /// What a key press does while the search text is edited.
    pub open spec fn editing_step(old: App, key: Key, new: App) -> bool {
        if key == Key::Esc || key == Key::Enter {
            new == (App { input_mode: InputMode::Normal, ..old })
        } else if key == Key::Backspace {
            &&& new.search_query@ == if old.search_query@.len() == 0 {
                old.search_query@
            } else {
                old.search_query@.drop_last()
            }
            &&& new == (App { search_query: new.search_query, selected: new.selected, ..old })
            &&& new.selected == followed(old.selected, old.selected_pid(), new.shown())
        } else if let Key::Char(c) = key {
            &&& new.search_query@ == old.search_query@.push(c)
            &&& new == (App { search_query: new.search_query, selected: new.selected, ..old })
            &&& new.selected == followed(old.selected, old.selected_pid(), new.shown())
        } else {
            new == old
        }
    }

    /// Whether a key confirms or cancels a dialog.
    pub open spec fn confirms(key: Key) -> bool {
        key == Key::Enter || is_char_of(key, 'y', 'Y')
    }

    pub open spec fn cancels(key: Key) -> bool {
        key == Key::Esc || is_char_of(key, 'n', 'N')
    }

    /// What confirming the open dialog asks for: the kill it holds, if the
    /// pid is in the last snapshot; nothing otherwise.
    pub open spec fn confirmed_effect(old: App) -> Effect {
        match old.popup {
            PopupState::Kill { pid, .. } => if has_pid(views(old.sys.table@), pid) {
                Effect::Kill(pid)
            } else {
                Effect::Nothing
            },
            _ => Effect::Nothing,
        }
    }

    /// What one key press does: its effect on the state and the outside
    /// work it asks for. Only confirming a kill dialog asks for any.
    pub open spec fn stepped(old: App, key: Key, new: App, effect: Effect) -> bool {
        match old.input_mode {
            InputMode::Normal => effect == Effect::Nothing && App::normal_step(old, key, new),
            InputMode::Editing => effect == Effect::Nothing && App::editing_step(old, key, new),
            InputMode::Popup => if App::confirms(key) || App::cancels(key) {
                &&& new == (App { popup: PopupState::Closed, input_mode: InputMode::Normal, ..old })
                &&& effect == if App::confirms(key) {
                    App::confirmed_effect(old)
                } else {
                    Effect::Nothing
                }
            } else {
                effect == Effect::Nothing && new == old
            },
        }
    }

    /// A dashboard with an empty cache, zeroed histories, no search, the
    /// cursor on the first row, in normal mode.
    pub fn new(tick_rate: Duration) -> (r: App)
        ensures
            r.wf(),
            r.sys.is_fresh(),
            r.sys.rx_rate == 0 && r.sys.tx_rate == 0,
            r.sys.table@.len() == 0,
            r.sys.procs@.len() == 0,
            r.sys.sort_by == ProcessSort::Cpu,
            r.descending,
            r.tick_rate == tick_rate,
            !r.should_quit,
            r.selected == 0,
            r.search_query@.len() == 0,
            r.input_mode == InputMode::Normal,
            r.popup is Closed,
            r.cpu_history@ == Seq::new(crate::history::HISTORY_LEN as nat, |i: int| 0u64),
            r.net_rx_history@ == Seq::new(crate::history::HISTORY_LEN as nat, |i: int| 0u64),
            r.net_tx_history@ == Seq::new(crate::history::HISTORY_LEN as nat, |i: int| 0u64),
    {
        App {
            sys: SysCache::new(),
            tick_rate,
            should_quit: false,
            selected: 0,
            descending: true,
            cpu_history: HistoryRing::new(),
            net_rx_history: HistoryRing::new(),
            net_tx_history: HistoryRing::new(),
            search_query: String::new(),
            input_mode: InputMode::Normal,
            popup: PopupState::Closed,
        }
    }

    /// The rows shown, in the order shown.
    pub fn visible_processes(&self) -> (r: Vec<ProcessInfo>)
        ensures
            views(r@) == self.shown(),
    {
        project(self.sys.processes(), self.search_query.as_str(), self.sys.sort_by, self.descending)
    }

    /// Takes a provider sample: refreshes the cache, records the CPU load
    /// in whole percent and the network rates in the histories, and keeps
    /// the cursor on the process it was on, or within the rows now shown.
    pub fn on_tick(&mut self, sample: MetricsSample)
        requires
            old(self).wf(),
        ensures
            final(self).wf(),
            SysCache::refreshed(old(self).sys, sample, final(self).sys),
            final(self).cpu_history@ == after_push(
                old(self).cpu_history@,
                (final(self).sys.cpu_global / 100) as u64,
            ),
            final(self).net_rx_history@ == after_push(old(self).net_rx_history@, final(self).sys.rx_rate),
            final(self).net_tx_history@ == after_push(old(self).net_tx_history@, final(self).sys.tx_rate),
            final(self).selected == followed(
                old(self).selected,
                old(self).selected_pid(),
                final(self).shown(),
            ),
            *final(self) == (App {
                sys: final(self).sys,
                cpu_history: final(self).cpu_history,
                net_rx_history: final(self).net_rx_history,
                net_tx_history: final(self).net_tx_history,
                selected: final(self).selected,
                ..*old(self)
            }),
    {
        let pid = self.selected_pid_now();
        self.sys.refresh(sample);
        self.cpu_history.push((self.sys.cpu_global / 100) as u64);
        self.net_rx_history.push(self.sys.rx_rate);
        self.net_tx_history.push(self.sys.tx_rate);
        self.follow_selection(pid);
    }

    /// The pid of the row under the cursor, if the cursor is on a row.
    fn selected_pid_now(&self) -> (r: Option<u32>)
        requires
            self.wf(),
        ensures
            r == self.selected_pid(),
    {
        let rows = self.visible_processes();
        if self.selected < rows.len() {
            assert(views(rows@)[self.selected as int] == rows@[self.selected as int]@);
            Some(rows[self.selected].pid)
        } else {
            None
        }
    }

    /// Puts the cursor on the row of `pid` if it is shown, else holds it
    /// within the rows shown.
    fn follow_selection(&mut self, pid: Option<u32>)
        requires
            old(self).wf(),
        ensures
            *final(self) == (App {
                selected: followed(old(self).selected, pid, old(self).shown()),
                ..*old(self)
            }),
    {
        let rows = self.visible_processes();
        let n = rows.len();
        let found = match pid {
            Some(p) => find_row(&rows, p),
            None => None,
        };
        match found {
            Some(k) => {
                self.selected = k;
            },
            None => {
                if n > 0 && self.selected >= n {
                    self.selected = n - 1;
                }
            },
        }
    }

    /// Handles one key press according to the mode, and returns the outside
    /// work it asks for.
    pub fn on_key(&mut self, key: Key) -> (effect: Effect)
        requires
            old(self).wf(),
        ensures
            final(self).wf(),
            App::stepped(*old(self), key, *final(self), effect),
    {
        match self.input_mode {
            InputMode::Normal => {
                if key == Key::Char('q') || key == Key::Char('Q') || key == Key::Ctrl('c') {
                    self.should_quit = true;
                } else if key == Key::Down {
                    self.next();
                } else if key == Key::Up {
                    self.previous();
                } else if key == Key::Char('k') {
                    self.try_kill();
                } else if key == Key::Char('/') {
                    self.input_mode = InputMode::Editing;
                } else if key == Key::Tab || key == Key::Char('s') {
                    self.toggle_sort();
                } else if key == Key::Char('r') {
                    let pid = self.selected_pid_now();
                    self.descending = !self.descending;
                    self.follow_selection(pid);
                } else if key == Key::Char('?') {
                    self.open_help();
                }
                Effect::Nothing
            },
            InputMode::Editing => {
                if key == Key::Esc || key == Key::Enter {
                    self.input_mode = InputMode::Normal;
                } else if key == Key::Backspace {
                    let pid = self.selected_pid_now();
                    pop_char(&mut self.search_query);
                    self.follow_selection(pid);
                } else if let Key::Char(c) = key {
                    let pid = self.selected_pid_now();
                    push_char(&mut self.search_query, c);
                    self.follow_selection(pid);
                }
                Effect::Nothing
            },
            InputMode::Popup => {
                if key == Key::Esc || key == Key::Char('n') || key == Key::Char('N') {
                    self.close_popup();
                    Effect::Nothing
                } else if key == Key::Enter || key == Key::Char('y') || key == Key::Char('Y') {
                    self.confirm_popup()
                } else {
                    Effect::Nothing
                }
            },
        }
    }

    /// Moves to the next sort key, with that key's default direction.
    fn toggle_sort(&mut self)
        requires
            old(self).wf(),
        ensures
            App::normal_step(*old(self), Key::Tab, *final(self)),
            final(self).wf(),
    {
        let k = match self.sys.sort_by {
            ProcessSort::Cpu => ProcessSort::Memory,
            ProcessSort::Memory => ProcessSort::Pid,
            ProcessSort::Pid => ProcessSort::Name,
            ProcessSort::Name => ProcessSort::User,
            ProcessSort::User => ProcessSort::Tree,
            ProcessSort::Tree => ProcessSort::Cpu,
        };
        let pid = self.selected_pid_now();
        self.sys.set_sort(k);
        self.descending = k == ProcessSort::Cpu || k == ProcessSort::Memory;
        self.follow_selection(pid);
    }

    fn open_help(&mut self)
        ensures
            *final(self) == (App {
                popup: PopupState::Help,
                input_mode: InputMode::Popup,
                ..*old(self)
            }),
    {
        self.popup = PopupState::Help;
        self.input_mode = InputMode::Popup;
    }

    /// Opens the kill dialog for the row under the cursor among the rows
    /// shown, holding its pid and name; does nothing without such a row.
    fn try_kill(&mut self)
        requires
            old(self).wf(),
        ensures
            App::normal_step(*old(self), Key::Char('k'), *final(self)),
    {
        let rows = self.visible_processes();
        if self.selected < rows.len() {
            let pid = rows[self.selected].pid;
            let name = rows[self.selected].name.clone();
            assert(views(rows@)[self.selected as int] == rows@[self.selected as int]@);
            self.popup = PopupState::Kill { pid, name };
            self.input_mode = InputMode::Popup;
        }
    }

    /// Closes the dialog, asking for the kill that it held, if any and if
    /// its pid is still in the snapshot.
    fn confirm_popup(&mut self) -> (effect: Effect)
        ensures
            *final(self) == (App {
                popup: PopupState::Closed,
                input_mode: InputMode::Normal,
                ..*old(self)
            }),
            effect == App::confirmed_effect(*old(self)),
    {
        let effect = match self.popup {
            PopupState::Kill { pid, .. } => self.sys.kill_process(pid),
            _ => Effect::Nothing,
        };
        self.close_popup();
        effect
    }

    fn close_popup(&mut self)
        ensures
            *final(self) == (App {
                popup: PopupState::Closed,
                input_mode: InputMode::Normal,
                ..*old(self)
            }),
    {
        self.popup = PopupState::Closed;
        self.input_mode = InputMode::Normal;
    }

    /// Moves the cursor one row down the rows shown, held at the last;
    /// nothing changes when no row is shown.
    pub fn next(&mut self)
        requires
            old(self).wf(),
        ensures
            *final(self) == (App {
                selected: moved_down(old(self).selected, old(self).shown().len()),
                ..*old(self)
            }),
    {
        let count = self.visible_processes().len();
        if count == 0 {
            return;
        }
        self.selected = if self.selected >= count - 1 {
            count - 1
        } else {
            self.selected + 1
        };
    }

    /// Moves the cursor one row up the rows shown, held at the first;
    /// nothing changes when no row is shown.
    pub fn previous(&mut self)
        requires
            old(self).wf(),
        ensures
            *final(self) == (App {
                selected: moved_up(old(self).selected, old(self).shown().len()),
                ..*old(self)
            }),
    {
        let count = self.visible_processes().len();
        if count == 0 {
            return;
        }
        self.selected = if self.selected == 0 {
            0
        } else if self.selected - 1 >= count {
            count - 1
        } else {
            self.selected - 1
        };
    }

    pub fn request_quit(&mut self)
        ensures
            *final(self) == (App { should_quit: true, ..*old(self) }),
    {
        self.should_quit = true;
    }

    pub fn should_quit(&self) -> (r: bool)
        ensures
            r == self.should_quit,
    {
        self.should_quit
    }

    pub fn sys(&self) -> (r: &SysCache)
        ensures
            r == &self.sys,
    {
        &self.sys
    }
}

/// With no rows shown, moving the cursor changes nothing and asks for
/// nothing.
pub proof fn lemma_moves_on_empty_view(old: App, key: Key, new: App, effect: Effect)
    requires
        old.input_mode == InputMode::Normal,
        old.shown().len() == 0,
        key == Key::Up || key == Key::Down,
        App::stepped(old, key, new, effect),
    ensures
        new == old,
        effect == Effect::Nothing,
{
}

/// The cursor stays on a row shown when it moves, if any row is shown.
pub proof fn lemma_moves_stay_in_view(old: App, key: Key, new: App, effect: Effect)
    requires
        old.input_mode == InputMode::Normal,
        old.shown().len() > 0,
        key == Key::Up || key == Key::Down,
        App::stepped(old, key, new, effect),
    ensures
        new.selected < old.shown().len(),
{
}

/// Asking to kill captures the pid under the cursor in a dialog; cancelling
/// it returns to normal mode asking for nothing, and confirming it asks
/// once to kill that pid and returns to normal mode.
pub proof fn lemma_kill_flow(
    a: App,
    b: App,
    e1: Effect,
    cancel: Key,
    c: App,
    e2: Effect,
    confirm: Key,
    d: App,
    e3: Effect,
)
    requires
        a.wf(),
        a.input_mode == InputMode::Normal,
        a.selected < a.shown().len(),
        App::stepped(a, Key::Char('k'), b, e1),
        App::cancels(cancel),
        App::stepped(b, cancel, c, e2),
        App::confirms(confirm),
        App::stepped(b, confirm, d, e3),
    ensures
        e1 == Effect::Nothing,
        b.input_mode == InputMode::Popup,
        b.popup matches PopupState::Kill { pid, .. } && pid == a.shown()[a.selected as int].pid,
        c.input_mode == InputMode::Normal,
        c.popup is Closed,
        e2 == Effect::Nothing,
        d.input_mode == InputMode::Normal,
        d.popup is Closed,
        e3 == Effect::Kill(a.shown()[a.selected as int].pid),
{
    lemma_shown_in_table(a);
}

proof fn lemma_matching_rows_from(rows: Seq<ProcessView>, q: Seq<char>)
    ensures
        forall|k: int|
            0 <= k < matching_rows(rows, q).len() ==> rows.contains(#[trigger] matching_rows(rows, q)[k]),
    decreases rows.len(),
{
    if rows.len() > 0 {
        lemma_matching_rows_from(rows.drop_last(), q);
        let m = matching_rows(rows, q);
        let init = matching_rows(rows.drop_last(), q);
        assert forall|k: int| 0 <= k < m.len() implies rows.contains(#[trigger] m[k]) by {
            if k < init.len() {
                assert(m[k] == init[k]);
                let j = choose|j: int| 0 <= j < rows.drop_last().len() && rows.drop_last()[j] == init[k];
                assert(rows[j] == m[k]);
            } else {
                assert(rows[rows.len() - 1] == m[k]);
            }
        }
    }
}

proof fn lemma_sorted_from(s: Seq<ProcessView>, key: ProcessSort, descending: bool)
    ensures
        forall|k: int|
            0 <= k < sorted_rows(s, key, descending).len() ==> s.contains(
                #[trigger] sorted_rows(s, key, descending)[k],
            ),
{
    broadcast use vstd::seq_lib::group_to_multiset_ensures;

    let r = sorted_rows(s, key, descending);
    lemma_stable_sort_multiset(s, crate::process::precedes_rel(key, descending));
    assert forall|k: int| 0 <= k < r.len() implies s.contains(#[trigger] r[k]) by {
        assert(r.contains(r[k]));
        assert(r.to_multiset().count(r[k]) > 0);
    }
}

/// Every row shown is a process of the last snapshot.
pub proof fn lemma_shown_in_table(app: App)
    requires
        app.wf(),
    ensures
        forall|k: int|
            0 <= k < app.shown().len() ==> has_pid(views(app.sys.table@), #[trigger] app.shown()[k].pid),
{
    let table = views(app.sys.table@);
    let procs = views(app.sys.procs@);
    let key = app.sys.sort_by;
    let m = matching_rows(procs, lower_of(app.search_query@));
    lemma_matching_rows_from(procs, lower_of(app.search_query@));
    lemma_sorted_from(m, key, app.descending);
    lemma_sorted_from(table, key, crate::snapshot::default_descending(key));
    assert(app.sys.table.len() == app.sys.table@.len());
    assert forall|t: int| 0 <= t < procs.len() implies has_pid(table, #[trigger] procs[t].pid) by {
        if key == ProcessSort::Tree {
            lemma_tree_order(table);
            let i = tree_indices(table)[t] as int;
            assert(procs[t] == crate::tree::with_depth(table, i));
            assert(table[i].pid == procs[t].pid);
        } else {
            assert(table.contains(procs[t]));
        }
    }
    assert forall|k: int| 0 <= k < app.shown().len() implies has_pid(
        table,
        #[trigger] app.shown()[k].pid,
    ) by {
        let row = app.shown()[k];
        assert(m.contains(row));
        let j = choose|j: int| 0 <= j < m.len() && m[j] == row;
        assert(procs.contains(m[j]));
    }
}

} // verus!

//! The interactive view: which metric orders the process table, which row is
//! selected, whether sampling is paused, and which process awaits confirmation
//! before it is killed.

use vstd::prelude::*;

verus! {

/// The metric that orders the process table.
#[derive(Clone, Copy, Debug, PartialEq, Eq, Structural)]
pub enum SortBy {
    Cpu,
    Delta,
    Mem,
    Name,
    Pid,
}

impl SortBy {
    /// The metric that the sort key moves to from `self`: CPU, then its change,
    /// memory, name, process id, and back to CPU.
    pub open spec fn successor(self) -> SortBy {
        match self {
            SortBy::Cpu => SortBy::Delta,
            SortBy::Delta => SortBy::Mem,
            SortBy::Mem => SortBy::Name,
            SortBy::Name => SortBy::Pid,
            SortBy::Pid => SortBy::Cpu,
        }
    }

    /// The name of the metric in the table's title.
    pub open spec fn title(self) -> Seq<char> {
        match self {
            SortBy::Cpu => "CPU"@,
            SortBy::Delta => "ΔCPU"@,
            SortBy::Mem => "Mem"@,
            SortBy::Name => "Name"@,
            SortBy::Pid => "PID"@,
        }
    }

    /// The next metric in the cycle.
    pub fn next(self) -> (r: SortBy)
        ensures
            r == self.successor(),
    {
        match self {
            SortBy::Cpu => SortBy::Delta,
            SortBy::Delta => SortBy::Mem,
            SortBy::Mem => SortBy::Name,
            SortBy::Name => SortBy::Pid,
            SortBy::Pid => SortBy::Cpu,
        }
    }

    /// The metric's name as the table's title shows it.
    pub fn label(self) -> (r: &'static str)
        ensures
            r@ == self.title(),
    {
        match self {
            SortBy::Cpu => "CPU",
            SortBy::Delta => "ΔCPU",
            SortBy::Mem => "Mem",
            SortBy::Name => "Name",
            SortBy::Pid => "PID",
        }
    }
}

/// A key press, as far as the view tells keys apart.
#[derive(Clone, Copy, Debug, PartialEq, Eq, Structural)]
pub enum KeyInput {
    Char(char),
    Up,
    Down,
    Other,
}

/// What the monitor is to do after a key press.
#[derive(Clone, Copy, Debug, PartialEq, Eq, Structural)]
pub enum Command {
    /// Keep running.
    Continue,
    /// Leave the monitor.
    Quit,
    /// Kill the process with this id, then keep running.
    Kill(u32),
}

/// The state of the interactive view.
#[derive(Clone, Copy, Debug)]
pub struct ViewState {
    /// Sampling is paused: no refresh, and earlier CPU readings are kept.
    pub paused: bool,
    /// The selected row of the process table.
    pub selected: usize,
    /// The metric that orders the table.
    pub sort_by: SortBy,
    /// The process that a kill awaits confirmation for.
    pub confirming_kill: Option<u32>,
}

/// The selection kept inside a table of `rows` rows: row 0 when it is empty,
/// else at most its last row.
pub open spec fn clamped(selected: usize, rows: usize) -> usize {
    if rows == 0 {
        0
    } else if selected < rows {
        selected
    } else {
        (rows - 1) as usize
    }
}

impl ViewState {
    /// The view after the key press `key`, with `pids` the process ids of the
    /// table's rows in order, and what the monitor is to do.
    pub open spec fn on_key(self, key: KeyInput, pids: Seq<u32>) -> (ViewState, Command) {
        match key {
            KeyInput::Char('q') => (self, Command::Quit),
            KeyInput::Char('p') => (ViewState { paused: !self.paused, ..self }, Command::Continue),
            KeyInput::Char('s') => (
                ViewState { sort_by: self.sort_by.successor(), ..self },
                Command::Continue,
            ),
            KeyInput::Down => if pids.len() > 0 {
                (
                    ViewState { selected: clamped((self.selected + 1) as usize, pids.len() as usize), ..self },
                    Command::Continue,
                )
            } else {
                (self, Command::Continue)
            },
            KeyInput::Up => if pids.len() > 0 && self.selected > 0 {
                (ViewState { selected: (self.selected - 1) as usize, ..self }, Command::Continue)
            } else {
                (self, Command::Continue)
            },
            KeyInput::Char('k') => if pids.len() > 0 {
                (
                    ViewState { confirming_kill: Some(pids[self.selected as int]), ..self },
                    Command::Continue,
                )
            } else {
                (self, Command::Continue)
            },
            KeyInput::Char('y') => match self.confirming_kill {
                Some(pid) => (ViewState { confirming_kill: None, ..self }, Command::Kill(pid)),
                None => (self, Command::Continue),
            },
            KeyInput::Char('n') => (ViewState { confirming_kill: None, ..self }, Command::Continue),
            _ => (self, Command::Continue),
        }
    }

    /// The view when the monitor starts: sampling, first row, ordered by CPU,
    /// nothing awaiting confirmation.
    pub fn new() -> (r: ViewState)
        ensures
            r == (ViewState { paused: false, selected: 0, sort_by: SortBy::Cpu, confirming_kill: None }),
    {
        ViewState { paused: false, selected: 0, sort_by: SortBy::Cpu, confirming_kill: None }
    }

    /// Keeps the selection inside a table of `rows` rows, as each frame does
    /// once the table is built.
    pub fn clamp_selection(&mut self, rows: usize)
        ensures
            *final(self) == (ViewState { selected: clamped(old(self).selected, rows), ..*old(self) }),
    {
        if rows == 0 {
            self.selected = 0;
        } else if self.selected >= rows {
            self.selected = rows - 1;
        }
    }

    /// Applies a key press; `pids` are the process ids of the table's rows in
    /// order, and the selection lies inside the table unless it is empty.
    pub fn handle_key(&mut self, key: KeyInput, pids: &Vec<u32>) -> (c: Command)
        requires
            pids.len() == 0 || old(self).selected < pids.len(),
        ensures
            (*final(self), c) == old(self).on_key(key, pids@),
    {
        match key {
            KeyInput::Char('q') => Command::Quit,
            KeyInput::Char('p') => {
                self.paused = !self.paused;
                Command::Continue
            },
            KeyInput::Char('s') => {
                self.sort_by = self.sort_by.next();
                Command::Continue
            },
            KeyInput::Down => {
                if pids.len() > 0 {
                    let next = self.selected + 1;
                    self.selected = if next < pids.len() {
                        next
                    } else {
                        pids.len() - 1
                    };
                }
                Command::Continue
            },
            KeyInput::Up => {
                if pids.len() > 0 && self.selected > 0 {
                    self.selected = self.selected - 1;
                }
                Command::Continue
            },
            KeyInput::Char('k') => {
                if pids.len() > 0 {
                    self.confirming_kill = Some(pids[self.selected]);
                }
                Command::Continue
            },
            KeyInput::Char('y') => match self.confirming_kill {
                Some(pid) => {
                    self.confirming_kill = None;
                    Command::Kill(pid)
                },
                None => Command::Continue,
            },
            KeyInput::Char('n') => {
                self.confirming_kill = None;
                Command::Continue
            },
            _ => Command::Continue,
        }
    }
}

/// Pressing `s` five times brings the table back to the metric it was ordered by.
pub proof fn lemma_sort_cycle(sort_by: SortBy)
    ensures
        sort_by.successor().successor().successor().successor().successor() == sort_by,
{
}

/// Pressing `p` twice leaves the view as it was.
pub proof fn lemma_pause_toggles(state: ViewState, pids: Seq<u32>)
    ensures
        state.on_key(KeyInput::Char('p'), pids).0.on_key(KeyInput::Char('p'), pids).0 == state,
{
}

/// A selection inside a non-empty table stays inside it, whatever key is pressed.
pub proof fn lemma_selection_stays_in_table(state: ViewState, key: KeyInput, pids: Seq<u32>)
    requires
        state.selected < pids.len(),
    ensures
        state.on_key(key, pids).0.selected < pids.len(),
{
}

/// A process is killed only by `y`, and only the one awaiting confirmation;
/// after that nothing awaits confirmation.
pub proof fn lemma_kill_needs_confirmation(state: ViewState, key: KeyInput, pids: Seq<u32>, pid: u32)
    requires
        state.on_key(key, pids).1 == Command::Kill(pid),
    ensures
        key == KeyInput::Char('y'),
        state.confirming_kill == Some(pid),
        state.on_key(key, pids).0.confirming_kill is None,
{
}

/// `k` then `y` kills the process of the selected row.
pub proof fn lemma_mark_then_confirm(state: ViewState, pids: Seq<u32>)
    requires
        state.selected < pids.len(),
    ensures
        state.on_key(KeyInput::Char('k'), pids).0.on_key(KeyInput::Char('y'), pids).1
            == Command::Kill(pids[state.selected as int]),
{
}

/// `k` then `n` kills nothing and leaves nothing awaiting confirmation.
pub proof fn lemma_mark_then_cancel(state: ViewState, pids: Seq<u32>)
    ensures
        state.on_key(KeyInput::Char('k'), pids).0.on_key(KeyInput::Char('n'), pids)
            == (ViewState { confirming_kill: None, ..state.on_key(KeyInput::Char('k'), pids).0 }, Command::Continue),
{
}

/// Only `q` quits, and it leaves the view as it was.
pub proof fn lemma_only_q_quits(state: ViewState, key: KeyInput, pids: Seq<u32>)
    ensures
        (state.on_key(key, pids).1 == Command::Quit) <==> key == KeyInput::Char('q'),
        key == KeyInput::Char('q') ==> state.on_key(key, pids).0 == state,
{
}

/// A clamped selection lies inside the table (row 0 of an empty one), and
/// clamping it again changes nothing.
pub proof fn lemma_clamp_inside(selected: usize, rows: usize)
    ensures
        rows == 0 ==> clamped(selected, rows) == 0,
        rows > 0 ==> clamped(selected, rows) < rows,
        clamped(clamped(selected, rows), rows) == clamped(selected, rows),
        selected < rows ==> clamped(selected, rows) == selected,
{
}

} // verus!

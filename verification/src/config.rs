//! Turning the command line into a benchmark, and the keys that leave the
//! dashboard.
use vstd::prelude::*;
use crate::state::{BenchState, Phase};
use crate::text::{join_words, join_with_spaces};

verus! {

/// A command line that cannot start a benchmark.
#[derive(Clone, Copy, Debug, PartialEq, Eq, Structural)]
pub enum UsageError {
    /// `--runs` was 0.
    ZeroRuns,
}

impl UsageError {
    /// The message printed for the error.
    pub fn message(&self) -> (r: &'static str)
        ensures
            r@ == "Error: --runs must be >= 1"@,
    {
        match self {
            UsageError::ZeroRuns => "Error: --runs must be >= 1",
        }
    }
}

/// The command to benchmark, from its words on the command line.
pub open spec fn command_text(words: Seq<String>) -> Seq<char> {
    join_words(words.map_values(|w: String| w@))
}

/// Rejects a benchmark of zero timed runs.
pub fn check_runs(runs: usize) -> (r: Result<(), UsageError>)
    ensures
        r is Err <==> runs == 0,
        r matches Err(e) ==> e == UsageError::ZeroRuns,
{
    if runs == 0 {
        Err(UsageError::ZeroRuns)
    } else {
        Ok(())
    }
}

impl BenchState {
    /// A benchmark of the command made of `words` (joined by single spaces),
    /// with `runs` timed runs after `warmup` warmup runs, not yet started;
    /// refused when `runs` is zero.
    pub fn from_args(words: &Vec<String>, runs: usize, warmup: usize, parallel: bool) -> (r:
        Result<BenchState, UsageError>)
        ensures
            r is Err <==> runs == 0,
            r matches Err(e) ==> e == UsageError::ZeroRuns,
            r matches Ok(s) ==> {
                &&& s.wf()
                &&& s.command@ == command_text(words@)
                &&& s.total_runs == runs
                &&& s.warmup_runs == warmup
                &&& s.parallel == parallel
                &&& s.phase == Phase::Idle
                &&& s.runs_done == 0
                &&& s.warmup_done == 0
                &&& s.log@.len() == 0
            },
    {
        match check_runs(runs) {
            Err(e) => Err(e),
            Ok(()) => {
                let command = join_with_spaces(words);
                Ok(BenchState::new(command, runs, warmup, parallel))
            },
        }
    }
}

/// A key pressed on the dashboard.
#[derive(Clone, Copy, Debug, PartialEq, Eq, Structural)]
pub enum Key {
    Char(char),
    Esc,
    Enter,
    Other,
}

/// Whether `key` leaves the dashboard: 'q' and Esc always do; Enter does too
/// once the benchmark is complete and the dashboard waits to be closed.
pub fn exits_dashboard(key: Key, awaiting_exit: bool) -> (r: bool)
    ensures
        r == (key == Key::Char('q') || key == Key::Esc || (awaiting_exit && key == Key::Enter)),
{
    match key {
        Key::Char(c) => c == 'q',
        Key::Esc => true,
        Key::Enter => awaiting_exit,
        Key::Other => false,
    }
}

} // verus!

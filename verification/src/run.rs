//! The result of one run of the benchmarked command.
use vstd::prelude::*;

verus! {

/// How one execution of the command ended.
#[derive(Clone, Copy, Debug, PartialEq, Eq, Structural)]
pub enum CommandOutcome {
    /// The shell exited with this status code.
    Exited(i32),
    /// The shell ended without a status code (killed by a signal).
    Terminated,
    /// The shell could not be started.
    FailedToStart,
}

/// One timed run: its duration in nanoseconds, its exit code (-1 when there
/// was none) and whether it counts as a success.
#[derive(Clone, Copy, Debug)]
pub struct RunResult {
    pub duration_ns: u128,
    pub exit_code: i32,
    pub ok: bool,
}

/// The exit code recorded for an outcome: the status code, or -1 when the
/// command left none.
pub open spec fn outcome_code(outcome: CommandOutcome) -> i32 {
    match outcome {
        CommandOutcome::Exited(code) => code,
        _ => -1i32,
    }
}

impl RunResult {
    /// The result of a run that took `duration_ns` and ended with `outcome`.
    /// A run succeeds exactly when its exit code is zero.
    pub fn from_outcome(duration_ns: u128, outcome: CommandOutcome) -> (r: RunResult)
        ensures
            r.duration_ns == duration_ns,
            r.exit_code == outcome_code(outcome),
            r.ok == (r.exit_code == 0),
            r.ok == (outcome == CommandOutcome::Exited(0)),
    {
        let code = match outcome {
            CommandOutcome::Exited(c) => c,
            CommandOutcome::Terminated => -1,
            CommandOutcome::FailedToStart => -1,
        };
        RunResult { duration_ns, exit_code: code, ok: code == 0 }
    }
}

} // verus!

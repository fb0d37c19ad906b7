//! The benchmark's state and the steps that move it from start to finish.
//!
//! A benchmark goes through its phases in order: `Idle`, `Warmup` (untimed
//! runs), `Benchmarking` (timed runs, one result each) and `Done`. Each step
//! appends one line to the run log. Times are nanosecond readings of a
//! monotonic clock supplied by the caller.
use vstd::prelude::*;
use crate::messages::{
    done_line, done_message, run_done_line, run_done_message, run_start_line, run_start_message,
    warmup_done_line, warmup_done_message, warmup_start_line, warmup_start_message,
};
use crate::run::RunResult;
use crate::stats::{
    count_ok, max_duration_of, max_ns, mean_duration_of, mean_ns, min_duration_of, min_ns, sum_ns,
    DURATION_MAX_NS,
};

verus! {

/// Phase of a benchmark.
#[derive(Clone, Copy, Debug, PartialEq, Eq, Structural)]
pub enum Phase {
    Idle,
    Warmup,
    Benchmarking,
    Done,
}

/// Position of a phase in the order in which a benchmark passes through them.
pub open spec fn phase_rank(p: Phase) -> nat {
    match p {
        Phase::Idle => 0,
        Phase::Warmup => 1,
        Phase::Benchmarking => 2,
        Phase::Done => 3,
    }
}

/// `a - b`, or zero when `b` is later than `a`.
pub open spec fn elapsed_between(b: u64, a: u64) -> nat {
    if a >= b {
        (a - b) as nat
    } else {
        0
    }
}

/// Wall time of the timed phase at clock reading `now`: from its start to its
/// end once it has ended, to `now` while it runs, none before it starts.
pub open spec fn wall_time_at(start: Option<u64>, end: Option<u64>, now: u64) -> Option<nat> {
    match (start, end) {
        (Some(s), Some(e)) => Some(elapsed_between(s, e)),
        (Some(s), None) => Some(elapsed_between(s, now)),
        _ => None,
    }
}

/// What the benchmark does next.
#[derive(Clone, Copy, Debug, PartialEq, Eq, Structural)]
pub enum Step {
    /// Enter the warmup phase (`start_warmup`).
    EnterWarmup,
    /// Run warmup run `i` (`warmup_started`, the command, `warmup_finished`).
    Warmup(usize),
    /// Start the timed phase (`begin_benchmark`).
    BeginTiming,
    /// Run timed run `i` (`run_started`, the command, `record_run`).
    Run(usize),
    /// Run every timed run at once, each as `Run` does, and wait for all.
    RunAllInParallel,
    /// End the timed phase (`finish`).
    Finish,
    /// Nothing is left to do.
    Stop,
}

/// Everything the benchmark knows: its configuration, progress, results and log.
#[derive(Clone, Debug)]
pub struct BenchState {
    pub command: String,
    pub total_runs: usize,
    pub warmup_runs: usize,
    pub parallel: bool,
    pub phase: Phase,
    pub warmup_done: usize,
    pub runs_done: usize,
    pub results: Vec<RunResult>,
    pub ok_count: usize,
    pub nok_count: usize,
    pub bench_start: Option<u64>,
    pub bench_end: Option<u64>,
    pub log: Vec<String>,
    pub finished: bool,
}

/// A sequence of strings as a sequence of lines.
pub open spec fn lines_view(v: Seq<String>) -> Seq<Seq<char>> {
    v.map_values(|l: String| l@)
}

impl BenchState {
    /// The log as a sequence of lines.
    pub open spec fn log_view(&self) -> Seq<Seq<char>> {
        lines_view(self.log@)
    }

    /// Configuration fields that no step changes.
    pub open spec fn same_config(&self, other: &BenchState) -> bool {
        &&& self.command@ == other.command@
        &&& self.total_runs == other.total_runs
        &&& self.warmup_runs == other.warmup_runs
        &&& self.parallel == other.parallel
    }

    /// The counters agree with the results, and the phase with the timestamps.
    pub open spec fn wf(&self) -> bool {
        &&& self.results@.len() == self.runs_done
        &&& self.runs_done <= self.total_runs
        &&& self.warmup_done <= self.warmup_runs
        &&& self.ok_count == count_ok(self.results@)
        &&& self.ok_count + self.nok_count == self.runs_done
        &&& self.finished <==> self.phase == Phase::Done
        &&& self.bench_start.is_some() <==> phase_rank(self.phase) >= 2
        &&& self.bench_end.is_some() <==> self.phase == Phase::Done
        &&& phase_rank(self.phase) <= 1 ==> self.runs_done == 0
        &&& self.phase == Phase::Idle ==> self.warmup_done == 0
        &&& phase_rank(self.phase) >= 2 ==> self.warmup_done == self.warmup_runs
        &&& self.phase == Phase::Done ==> self.runs_done == self.total_runs
    }

    /// A benchmark of `command`, `runs` timed runs after `warmup` warmup runs,
    /// that has not started.
    pub fn new(command: String, runs: usize, warmup: usize, parallel: bool) -> (s: Self)
        ensures
            s.wf(),
            s.command@ == command@,
            s.total_runs == runs,
            s.warmup_runs == warmup,
            s.parallel == parallel,
            s.phase == Phase::Idle,
            s.warmup_done == 0,
            s.runs_done == 0,
            s.results@.len() == 0,
            s.ok_count == 0,
            s.nok_count == 0,
            s.bench_start.is_none(),
            s.bench_end.is_none(),
            s.log@.len() == 0,
            !s.finished,
    {
        let s = BenchState {
            command,
            total_runs: runs,
            warmup_runs: warmup,
            parallel,
            phase: Phase::Idle,
            warmup_done: 0,
            runs_done: 0,
            results: Vec::new(),
            ok_count: 0,
            nok_count: 0,
            bench_start: None,
            bench_end: None,
            log: Vec::new(),
            finished: false,
        };
        assert(s.results@ =~= Seq::<RunResult>::empty());
        s
    }

    /// Shortest run so far, in nanoseconds; none before the first run.
    pub fn min_duration(&self) -> (r: Option<u128>)
        ensures
            r == if self.results@.len() == 0 {
                None::<u128>
            } else {
                Some(min_ns(self.results@) as u128)
            },
    {
        min_duration_of(&self.results)
    }

    /// Longest run so far, in nanoseconds; none before the first run.
    pub fn max_duration(&self) -> (r: Option<u128>)
        ensures
            r == if self.results@.len() == 0 {
                None::<u128>
            } else {
                Some(max_ns(self.results@) as u128)
            },
    {
        max_duration_of(&self.results)
    }

    /// Mean run duration so far, rounded down to whole nanoseconds; none
    /// before the first run. The count is taken as a `u32`, as `Duration`
    /// division takes it; the total must fit in a `Duration`.
    pub fn mean_duration(&self) -> (r: Option<u128>)
        requires
            self.results@.len() > 0 ==> (self.results@.len() as u32) != 0,
            sum_ns(self.results@) <= DURATION_MAX_NS,
        ensures
            r == if self.results@.len() == 0 {
                None::<u128>
            } else {
                Some(mean_ns(self.results@) as u128)
            },
    {
        mean_duration_of(&self.results)
    }

    /// Wall time of the timed phase at clock reading `now_ns`.
    pub fn total_wall_time(&self, now_ns: u64) -> (r: Option<u128>)
        ensures
            r matches Some(w) ==> wall_time_at(self.bench_start, self.bench_end, now_ns) == Some(
                w as nat,
            ),
            r is None <==> wall_time_at(self.bench_start, self.bench_end, now_ns) is None,
    {
        match (self.bench_start, self.bench_end) {
            (Some(s), Some(e)) => Some(if e >= s {
                (e - s) as u128
            } else {
                0
            }),
            (Some(s), None) => Some(if now_ns >= s {
                (now_ns - s) as u128
            } else {
                0
            }),
            _ => None,
        }
    }

    /// The step that follows in a benchmark: the warmup phase is entered
    /// (even without warmup runs), the warmup runs go one at a time, then
    /// timing starts, the timed runs go one at a time (or all at once in
    /// parallel mode), and the timed phase ends once every run has finished.
    pub open spec fn next_step_spec(&self) -> Step {
        match self.phase {
            Phase::Idle => Step::EnterWarmup,
            Phase::Warmup => if self.warmup_done < self.warmup_runs {
                Step::Warmup(self.warmup_done)
            } else {
                Step::BeginTiming
            },
            Phase::Benchmarking => if self.runs_done == self.total_runs {
                Step::Finish
            } else if self.parallel {
                Step::RunAllInParallel
            } else {
                Step::Run(self.runs_done)
            },
            Phase::Done => Step::Stop,
        }
    }

    /// The step that follows (see `next_step_spec`).
    pub fn next_step(&self) -> (r: Step)
        requires
            self.wf(),
        ensures
            r == self.next_step_spec(),
    {
        match self.phase {
            Phase::Idle => Step::EnterWarmup,
            Phase::Warmup => if self.warmup_done < self.warmup_runs {
                Step::Warmup(self.warmup_done)
            } else {
                Step::BeginTiming
            },
            Phase::Benchmarking => if self.runs_done == self.total_runs {
                Step::Finish
            } else if self.parallel {
                Step::RunAllInParallel
            } else {
                Step::Run(self.runs_done)
            },
            Phase::Done => Step::Stop,
        }
    }

    /// Enters the warmup phase.
    pub fn start_warmup(&mut self)
        requires
            old(self).wf(),
            old(self).phase == Phase::Idle,
        ensures
            final(self).wf(),
            final(self).same_config(old(self)),
            final(self).phase == Phase::Warmup,
            final(self).results@ == old(self).results@,
            final(self).warmup_done == old(self).warmup_done,
            final(self).bench_start == old(self).bench_start,
            final(self).bench_end == old(self).bench_end,
            final(self).log_view() == old(self).log_view(),
    {
        self.phase = Phase::Warmup;
    }

    /// Warmup run `i` (0-based) is starting.
    pub fn warmup_started(&mut self, i: usize)
        requires
            old(self).wf(),
            old(self).phase == Phase::Warmup,
            i < old(self).warmup_runs,
        ensures
            final(self).wf(),
            final(self).same_config(old(self)),
            final(self).phase == Phase::Warmup,
            final(self).results@ == old(self).results@,
            final(self).warmup_done == old(self).warmup_done,
            final(self).log_view() == old(self).log_view().push(
                warmup_start_line(i as nat, old(self).warmup_runs as nat),
            ),
    {
        let line = warmup_start_message(i, self.warmup_runs);
        self.log.push(line);
        assert(self.log_view() =~= old(self).log_view().push(
            warmup_start_line(i as nat, old(self).warmup_runs as nat),
        ));
    }

    /// Warmup run `i` (0-based) has finished; its result is not recorded.
    pub fn warmup_finished(&mut self, i: usize)
        requires
            old(self).wf(),
            old(self).phase == Phase::Warmup,
            i < old(self).warmup_runs,
            old(self).warmup_done < old(self).warmup_runs,
        ensures
            final(self).wf(),
            final(self).same_config(old(self)),
            final(self).phase == Phase::Warmup,
            final(self).results@ == old(self).results@,
            final(self).warmup_done == old(self).warmup_done + 1,
            final(self).log_view() == old(self).log_view().push(
                warmup_done_line(i as nat, old(self).warmup_runs as nat),
            ),
    {
        self.warmup_done = self.warmup_done + 1;
        let line = warmup_done_message(i, self.warmup_runs);
        self.log.push(line);
        assert(self.log_view() =~= old(self).log_view().push(
            warmup_done_line(i as nat, old(self).warmup_runs as nat),
        ));
    }

    /// The timed phase starts at clock reading `now_ns`, once every warmup
    /// run has finished.
    pub fn begin_benchmark(&mut self, now_ns: u64)
        requires
            old(self).wf(),
            old(self).phase == Phase::Warmup,
            old(self).warmup_done == old(self).warmup_runs,
        ensures
            final(self).wf(),
            final(self).same_config(old(self)),
            final(self).phase == Phase::Benchmarking,
            final(self).bench_start == Some(now_ns),
            final(self).results@ == old(self).results@,
            final(self).warmup_done == old(self).warmup_done,
            final(self).log_view() == old(self).log_view(),
    {
        self.phase = Phase::Benchmarking;
        self.bench_start = Some(now_ns);
    }

    /// Timed run `i` (0-based) is starting.
    pub fn run_started(&mut self, i: usize)
        requires
            old(self).wf(),
            old(self).phase == Phase::Benchmarking,
            i < old(self).total_runs,
        ensures
            final(self).wf(),
            final(self).same_config(old(self)),
            final(self).phase == Phase::Benchmarking,
            final(self).results@ == old(self).results@,
            final(self).runs_done == old(self).runs_done,
            final(self).ok_count == old(self).ok_count,
            final(self).warmup_done == old(self).warmup_done,
            final(self).bench_start == old(self).bench_start,
            final(self).log_view() == old(self).log_view().push(
                run_start_line(i as nat, old(self).total_runs as nat, old(self).parallel),
            ),
    {
        let line = run_start_message(i, self.total_runs, self.parallel);
        self.log.push(line);
        assert(self.log_view() =~= old(self).log_view().push(
            run_start_line(i as nat, old(self).total_runs as nat, old(self).parallel),
        ));
    }

    /// Timed run `i` (0-based) has finished with result `r`, which is recorded
    /// and counted as a success or a failure.
    pub fn record_run(&mut self, i: usize, r: RunResult)
        requires
            old(self).wf(),
            old(self).phase == Phase::Benchmarking,
            i < old(self).total_runs,
            old(self).runs_done < old(self).total_runs,
        ensures
            final(self).wf(),
            final(self).same_config(old(self)),
            final(self).phase == Phase::Benchmarking,
            final(self).results@ == old(self).results@.push(r),
            final(self).runs_done == old(self).runs_done + 1,
            final(self).ok_count == old(self).ok_count + if r.ok {
                1int
            } else {
                0int
            },
            final(self).nok_count == old(self).nok_count + if r.ok {
                0int
            } else {
                1int
            },
            final(self).warmup_done == old(self).warmup_done,
            final(self).bench_start == old(self).bench_start,
            final(self).log_view() == old(self).log_view().push(
                run_done_line(i as nat, old(self).total_runs as nat, r),
            ),
    {
        let line = run_done_message(i, self.total_runs, &r);
        let ok = r.ok;
        self.results.push(r);
        self.runs_done = self.runs_done + 1;
        assert(self.results@.drop_last() =~= old(self).results@);
        if ok {
            self.ok_count = self.ok_count + 1;
        } else {
            self.nok_count = self.nok_count + 1;
        }
        self.log.push(line);
        assert(self.log_view() =~= old(self).log_view().push(
            run_done_line(i as nat, old(self).total_runs as nat, r),
        ));
    }

    /// Every timed run has finished; the timed phase ends at clock reading `now_ns`.
    pub fn finish(&mut self, now_ns: u64)
        requires
            old(self).wf(),
            old(self).phase == Phase::Benchmarking,
            old(self).runs_done == old(self).total_runs,
        ensures
            final(self).wf(),
            final(self).same_config(old(self)),
            final(self).phase == Phase::Done,
            final(self).finished,
            final(self).bench_start == old(self).bench_start,
            final(self).bench_end == Some(now_ns),
            final(self).results@ == old(self).results@,
            final(self).runs_done == old(self).runs_done,
            final(self).ok_count == old(self).ok_count,
            final(self).warmup_done == old(self).warmup_done,
            final(self).log_view() == old(self).log_view().push(done_line()),
    {
        self.bench_end = Some(now_ns);
        self.phase = Phase::Done;
        self.finished = true;
        let line = done_message();
        self.log.push(line);
        assert(self.log_view() =~= old(self).log_view().push(done_line()));
    }
}

} // verus!

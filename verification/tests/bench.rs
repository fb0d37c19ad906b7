use rbench::config::check_runs;
use rbench::{
    exits_dashboard, failed_label, log_kind, mode_label, progress_label, BenchState,
    CommandOutcome, Key, LogKind, Phase, RunResult, UsageError,
};

fn run(ns: u128, code: i32) -> RunResult {
    RunResult::from_outcome(ns, CommandOutcome::Exited(code))
}

fn words(ws: &[&str]) -> Vec<String> {
    ws.iter().map(|w| w.to_string()).collect()
}

#[test]
fn non_zero_exit_code_is_a_failed_run() {
    let ok = run(5, 0);
    assert!(ok.ok);
    assert_eq!(ok.exit_code, 0);
    let bad = run(5, 2);
    assert!(!bad.ok);
    assert_eq!(bad.exit_code, 2);
    let killed = RunResult::from_outcome(7, CommandOutcome::Terminated);
    assert!(!killed.ok);
    assert_eq!(killed.exit_code, -1);
    let not_started = RunResult::from_outcome(7, CommandOutcome::FailedToStart);
    assert!(!not_started.ok);
    assert_eq!(not_started.exit_code, -1);
    assert_eq!(not_started.duration_ns, 7);
}

#[test]
fn runs_must_be_at_least_one() {
    assert_eq!(check_runs(0), Err(UsageError::ZeroRuns));
    assert_eq!(check_runs(1), Ok(()));
    let refused = BenchState::from_args(&words(&["true"]), 0, 2, false);
    match refused {
        Err(e) => {
            assert_eq!(e, UsageError::ZeroRuns);
            assert_eq!(e.message(), "Error: --runs must be >= 1");
        }
        Ok(_) => panic!("zero runs accepted"),
    }
}

#[test]
fn from_args_joins_the_command() {
    let s = BenchState::from_args(&words(&["ls", "-la", "/tmp"]), 20, 2, false).unwrap();
    assert_eq!(s.command, "ls -la /tmp");
    assert_eq!(s.total_runs, 20);
    assert_eq!(s.warmup_runs, 2);
    assert!(!s.parallel);
    assert_eq!(s.phase, Phase::Idle);
    assert!(s.log.is_empty());
}

#[test]
fn new_state_is_idle_and_empty() {
    let s = BenchState::new("echo hello".to_string(), 5, 0, true);
    assert_eq!(s.phase, Phase::Idle);
    assert_eq!(s.runs_done, 0);
    assert_eq!(s.ok_count + s.nok_count, 0);
    assert_eq!(s.min_duration(), None);
    assert_eq!(s.max_duration(), None);
    assert_eq!(s.mean_duration(), None);
    assert_eq!(s.total_wall_time(1_000), None);
    assert!(!s.finished);
    assert_eq!(s.history_bars(), "");
}

fn full_sequential_benchmark() -> BenchState {
    let mut s = BenchState::new("sleep 0.1".to_string(), 3, 2, false);
    s.start_warmup();
    for i in 0..2 {
        s.warmup_started(i);
        s.warmup_finished(i);
    }
    s.begin_benchmark(1_000);
    let results = [run(2_000_000, 0), run(4_000_000, 1), run(3_000_000, 0)];
    for (i, r) in results.iter().enumerate() {
        s.run_started(i);
        s.record_run(i, *r);
    }
    s.finish(10_001_000);
    s
}

#[test]
fn a_full_benchmark_logs_every_step() {
    let s = full_sequential_benchmark();
    assert_eq!(
        s.log,
        vec![
            "⏳ Warmup 1/2",
            "✓  Warmup 1/2 done",
            "⏳ Warmup 2/2",
            "✓  Warmup 2/2 done",
            "▶ Run 1/3",
            "✓  Run 1/3 — 2.00ms [exit:0]",
            "▶ Run 2/3",
            "✗  Run 2/3 FAILED — 4.00ms [exit:1]",
            "▶ Run 3/3",
            "✓  Run 3/3 — 3.00ms [exit:0]",
            "🏁 Done! Press q or Esc to exit.",
        ]
    );
    assert_eq!(s.phase, Phase::Done);
    assert!(s.finished);
    assert_eq!(s.warmup_done, 2);
    assert_eq!(s.runs_done, 3);
    assert_eq!(s.ok_count, 2);
    assert_eq!(s.nok_count, 1);
}

#[test]
fn statistics_of_a_full_benchmark() {
    let s = full_sequential_benchmark();
    assert_eq!(s.min_duration(), Some(2_000_000));
    assert_eq!(s.max_duration(), Some(4_000_000));
    assert_eq!(s.mean_duration(), Some(3_000_000));
    assert_eq!(s.total_wall_time(99_999_999), Some(10_000_000));
}

#[test]
fn mean_lies_between_min_and_max() {
    let mut s = BenchState::new("x".to_string(), 4, 0, false);
    s.start_warmup();
    s.begin_benchmark(0);
    for (i, ns) in [10u128, 11, 11, 30].iter().enumerate() {
        s.record_run(i, run(*ns, 0));
    }
    let mean = s.mean_duration().unwrap();
    assert_eq!(mean, 15);
    assert!(s.min_duration().unwrap() <= mean && mean <= s.max_duration().unwrap());
}

#[test]
fn mean_rounds_down() {
    let mut s = BenchState::new("x".to_string(), 3, 0, false);
    s.start_warmup();
    s.begin_benchmark(0);
    for (i, ns) in [1_000_000_001u128, 0, 1].iter().enumerate() {
        s.record_run(i, run(*ns, 0));
    }
    assert_eq!(s.mean_duration(), Some(333_333_334));
}

#[test]
fn wall_time_grows_while_running_and_freezes_when_done() {
    let mut s = BenchState::new("x".to_string(), 1, 0, false);
    s.start_warmup();
    assert_eq!(s.total_wall_time(500), None);
    s.begin_benchmark(1_000);
    assert_eq!(s.total_wall_time(1_000), Some(0));
    assert_eq!(s.total_wall_time(4_000), Some(3_000));
    assert_eq!(s.total_wall_time(500), Some(0));
    s.record_run(0, run(10, 0));
    s.finish(9_000);
    assert_eq!(s.total_wall_time(9_000), Some(8_000));
    assert_eq!(s.total_wall_time(1_000_000), Some(8_000));
    assert_eq!(s.total_wall_time(0), Some(8_000));
}

#[test]
fn parallel_runs_are_labelled_and_counted_in_completion_order() {
    let mut s = BenchState::new("echo hello".to_string(), 2, 0, true);
    s.start_warmup();
    s.begin_benchmark(0);
    s.run_started(0);
    s.run_started(1);
    s.record_run(1, run(1_500, 0));
    s.record_run(0, run(2_500_000, 127));
    assert_eq!(
        s.log,
        vec![
            "▶ Run 1/2 (parallel)",
            "▶ Run 2/2 (parallel)",
            "✓  Run 2/2 — 1µs [exit:0]",
            "✗  Run 1/2 FAILED — 2.50ms [exit:127]",
        ]
    );
    assert_eq!(s.results[0].duration_ns, 1_500);
    assert_eq!(s.results[1].exit_code, 127);
    assert_eq!((s.ok_count, s.nok_count, s.runs_done), (1, 1, 2));
}

#[test]
fn negative_exit_codes_are_logged_with_a_sign() {
    let mut s = BenchState::new("x".to_string(), 1, 0, false);
    s.start_warmup();
    s.begin_benchmark(0);
    s.record_run(0, RunResult::from_outcome(3_000_000_000, CommandOutcome::Terminated));
    assert_eq!(s.log[0], "✗  Run 1/1 FAILED — 3.000s [exit:-1]");
}

#[test]
fn log_lines_get_the_colour_of_their_event() {
    let s = full_sequential_benchmark();
    let kinds: Vec<LogKind> = s.log.iter().map(|l| log_kind(l)).collect();
    assert_eq!(
        kinds,
        vec![
            LogKind::Warmup,
            LogKind::Success,
            LogKind::Warmup,
            LogKind::Success,
            LogKind::RunStart,
            LogKind::Success,
            LogKind::RunStart,
            LogKind::Failure,
            LogKind::RunStart,
            LogKind::Success,
            LogKind::Done,
        ]
    );
    assert_eq!(log_kind("something FAILED here"), LogKind::Failure);
    assert_eq!(log_kind("plain text"), LogKind::Other);
    assert_eq!(log_kind("FAI"), LogKind::Other);
}

#[test]
fn visible_log_keeps_the_latest_lines() {
    let s = full_sequential_benchmark();
    let shown = s.visible_log(5);
    assert_eq!(
        shown,
        vec![
            "▶ Run 3/3",
            "✓  Run 3/3 — 3.00ms [exit:0]",
            "🏁 Done! Press q or Esc to exit.",
        ]
    );
    assert!(s.visible_log(2).is_empty());
    assert!(s.visible_log(0).is_empty());
    assert_eq!(s.visible_log(100).len(), s.log.len());
}

#[test]
fn history_marks_failures_and_scales_bars() {
    let s = full_sequential_benchmark();
    // 2ms is the minimum, 4ms (failed) the maximum, 3ms half way: 3.5 rounds to 4.
    assert_eq!(s.history_bars(), "▁✗▅");
}

#[test]
fn history_of_equal_runs_is_the_middle_bar() {
    let mut s = BenchState::new("x".to_string(), 2, 0, false);
    s.start_warmup();
    s.begin_benchmark(0);
    s.record_run(0, run(5_000, 0));
    s.record_run(1, run(5_999, 0));
    assert_eq!(s.history_bars(), "▅▅");
}

#[test]
fn history_shows_only_the_last_thirty_runs() {
    let mut s = BenchState::new("x".to_string(), 40, 0, false);
    s.start_warmup();
    s.begin_benchmark(0);
    for i in 0..40usize {
        s.record_run(i, run((i as u128) * 7_000, 0));
    }
    let bars: Vec<char> = s.history_bars().chars().collect();
    assert_eq!(bars.len(), 30);
    // Run 10 of 0..39 (70µs) sits at 70/273 * 7 = 1.79, shown as level 2.
    assert_eq!(bars[0], '▃');
    assert_eq!(bars[29], '█');
}

#[test]
fn history_rounds_the_f64_product() {
    let mut s = BenchState::new("x".to_string(), 3, 0, false);
    s.start_warmup();
    s.begin_benchmark(0);
    for (i, ns) in [0u128, 386_062_433_334_871_000, 600_541_562_965_355_000].iter().enumerate() {
        s.record_run(i, run(*ns, 0));
    }
    // The exact position is 4.4999999999999991; its f64 product is 4.5.
    assert_eq!(s.history_bars(), "▁▆█");
}

/// The sparkline computed with floating point, as the dashboard shows it.
fn bars_with_floats(times: &[u128]) -> String {
    let us: Vec<u128> = times.iter().map(|t| t / 1000).collect();
    let lo = *us.iter().min().unwrap();
    let hi = *us.iter().max().unwrap();
    let sparks = ['▁', '▂', '▃', '▄', '▅', '▆', '▇', '█'];
    let start = us.len().saturating_sub(30);
    us[start..]
        .iter()
        .map(|u| {
            let x = if hi == lo { 0.5 } else { (u - lo) as f64 / (hi - lo) as f64 };
            sparks[((x * 7.0).round() as usize).min(7)]
        })
        .collect()
}

#[test]
fn history_agrees_with_floating_point() {
    let mut x: u64 = 0x9e37_79b9_7f4a_7c15;
    let mut next = move || {
        x ^= x << 13;
        x ^= x >> 7;
        x ^= x << 17;
        x
    };
    for round in 0..400u32 {
        let bits = 10 + round % 110;
        let n = 2 + (next() % 40) as usize;
        let times: Vec<u128> = (0..n)
            .map(|_| ((next() as u128) << 64 | next() as u128) >> (128 - bits))
            .collect();
        let mut s = BenchState::new("x".to_string(), n, 0, false);
        s.start_warmup();
        s.begin_benchmark(0);
        for (i, t) in times.iter().enumerate() {
            s.record_run(i, run(*t, 0));
        }
        assert_eq!(s.history_bars(), bars_with_floats(&times), "{:?}", times);
    }
}

#[test]
fn labels() {
    assert_eq!(Phase::Idle.label(), "IDLE");
    assert_eq!(Phase::Warmup.label(), "WARMING UP");
    assert_eq!(Phase::Benchmarking.label(), "BENCHMARKING");
    assert_eq!(Phase::Done.label(), "DONE");
    assert_eq!(mode_label(true), "parallel");
    assert_eq!(mode_label(false), "sequential");
    assert_eq!(progress_label(3, 10), "3/10");
    assert_eq!(failed_label(2), "2 run(s) failed!");
}

#[test]
fn exit_keys() {
    assert!(exits_dashboard(Key::Char('q'), false));
    assert!(exits_dashboard(Key::Esc, false));
    assert!(!exits_dashboard(Key::Enter, false));
    assert!(exits_dashboard(Key::Enter, true));
    assert!(exits_dashboard(Key::Char('q'), true));
    assert!(!exits_dashboard(Key::Char('x'), true));
    assert!(!exits_dashboard(Key::Other, true));
}

use rbench::{BenchState, CommandOutcome, Phase, RunResult, StatRow, Step};

fn ok_run(ns: u128) -> RunResult {
    RunResult::from_outcome(ns, CommandOutcome::Exited(0))
}

/// Carries out the steps the state asks for, with the given run times.
fn drive(s: &mut BenchState, times: &[u128]) -> Vec<Step> {
    let mut seen = Vec::new();
    let mut clock: u64 = 100;
    loop {
        let step = s.next_step();
        seen.push(step);
        match step {
            Step::EnterWarmup => s.start_warmup(),
            Step::Warmup(i) => {
                s.warmup_started(i);
                s.warmup_finished(i);
            }
            Step::BeginTiming => s.begin_benchmark(clock),
            Step::Run(i) => {
                s.run_started(i);
                s.record_run(i, ok_run(times[i]));
            }
            Step::RunAllInParallel => {
                let first = s.runs_done;
                for i in first..s.total_runs {
                    s.run_started(i);
                }
                for i in (first..s.total_runs).rev() {
                    s.record_run(i, ok_run(times[i]));
                }
            }
            Step::Finish => s.finish(clock),
            Step::Stop => break,
        }
        clock += 1_000;
    }
    seen
}

#[test]
fn sequential_steps_run_warmups_then_runs_then_finish() {
    let mut s = BenchState::new("true".to_string(), 2, 2, false);
    let steps = drive(&mut s, &[5_000, 7_000]);
    assert_eq!(
        steps,
        vec![
            Step::EnterWarmup,
            Step::Warmup(0),
            Step::Warmup(1),
            Step::BeginTiming,
            Step::Run(0),
            Step::Run(1),
            Step::Finish,
            Step::Stop,
        ]
    );
    assert_eq!(s.phase, Phase::Done);
    assert_eq!(s.warmup_done, 2);
    assert_eq!(s.runs_done, 2);
    assert_eq!(s.min_duration(), Some(5_000));
}

#[test]
fn warmup_is_entered_even_without_warmup_runs() {
    let mut s = BenchState::new("true".to_string(), 1, 0, false);
    let steps = drive(&mut s, &[1]);
    assert_eq!(
        steps,
        vec![Step::EnterWarmup, Step::BeginTiming, Step::Run(0), Step::Finish, Step::Stop]
    );
}

#[test]
fn parallel_steps_run_everything_at_once() {
    let mut s = BenchState::new("true".to_string(), 3, 1, true);
    let steps = drive(&mut s, &[1_000, 2_000, 3_000]);
    assert_eq!(
        steps,
        vec![
            Step::EnterWarmup,
            Step::Warmup(0),
            Step::BeginTiming,
            Step::RunAllInParallel,
            Step::Finish,
            Step::Stop,
        ]
    );
    assert_eq!(s.results.len(), 3);
    assert_eq!(s.results[0].duration_ns, 3_000);
}

#[test]
fn a_finished_benchmark_has_its_statistics() {
    let mut s = BenchState::from_args(&vec!["sleep".to_string(), "0.1".to_string()], 1, 0, false)
        .unwrap();
    drive(&mut s, &[42_000]);
    assert!(s.finished);
    assert_eq!(s.min_duration(), Some(42_000));
    assert_eq!(s.max_duration(), Some(42_000));
    assert_eq!(s.mean_duration(), Some(42_000));
}

#[test]
fn statistics_do_not_depend_on_run_order() {
    let times = [9_000u128, 1_000, 5_000, 5_000, 30_000];
    let mut a = BenchState::new("x".to_string(), 5, 0, false);
    drive(&mut a, &times);
    let mut b = BenchState::new("x".to_string(), 5, 0, true);
    drive(&mut b, &times);
    assert_ne!(
        a.results.iter().map(|r| r.duration_ns).collect::<Vec<_>>(),
        b.results.iter().map(|r| r.duration_ns).collect::<Vec<_>>()
    );
    assert_eq!(a.min_duration(), b.min_duration());
    assert_eq!(a.max_duration(), b.max_duration());
    assert_eq!(a.mean_duration(), b.mean_duration());
    assert_eq!(a.ok_count, b.ok_count);
}

#[test]
fn stat_rows_follow_the_state() {
    let mut s = BenchState::new("x".to_string(), 2, 0, false);
    assert_eq!(s.stat_rows(0), vec![StatRow::Mode, StatRow::Success]);
    s.start_warmup();
    s.begin_benchmark(1_000);
    assert_eq!(
        s.stat_rows(4_000),
        vec![StatRow::Mode, StatRow::WallTime(3_000), StatRow::Success]
    );
    s.record_run(0, RunResult::from_outcome(2_000, CommandOutcome::Exited(3)));
    assert_eq!(
        s.stat_rows(4_000),
        vec![
            StatRow::Mode,
            StatRow::WallTime(3_000),
            StatRow::Min(2_000),
            StatRow::Max(2_000),
            StatRow::Mean(2_000),
            StatRow::Success,
            StatRow::Failed,
            StatRow::History,
        ]
    );
    s.record_run(1, ok_run(4_000));
    s.finish(9_000);
    let rows = s.stat_rows(1_000_000);
    assert_eq!(rows[1], StatRow::WallTime(8_000));
    assert_eq!(rows[5], StatRow::StdDev);
    let labels: Vec<&str> = rows.iter().map(|r| r.label()).collect();
    assert_eq!(
        labels,
        vec!["Mode", "Wall time", "Min", "Max", "Mean", "Std dev", "Success", "Failed", "History"]
    );
}

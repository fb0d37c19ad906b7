# rbench

A terminal dashboard that benchmarks a shell command: optional warmup runs,
then timed runs (sequential or parallel), with live progress, statistics, a
run log and a final summary.

The library under `src/` is verified with Verus:

- `state.rs` — the benchmark state machine (`BenchState`): phases, counters,
  results, timestamps, `next_step` (which step comes next), and the step
  functions that carry a benchmark out, each keeping the state consistent
  (`wf`) and appending its log line.
- `stats.rs` — minimum, maximum and mean duration, success counts.
- `duration.rs` — duration formatting (µs / ms / s), with the `f64` rounding
  of the displayed value stated in integer terms.
- `float.rs` — rounding to `f64` stated on natural numbers.
- `messages.rs` — the run log lines.
- `display.rs` — labels, statistics rows, history sparkline, log line
  classes, visible log.
- `run.rs` — the result of one run from the way the command ended.
- `power.rs` — recognising the power-saver profile.
- `config.rs` — command-line validation and the exit keys.
- `text.rs` — decimal rendering, trimming and joining of text.
- `laws.rs` — properties that span several of the above.

`app/main.rs` is the program: argument parsing, running the command (the
steps `next_step` names), threads, the clock, the terminal user interface and the figures computed in
floating point (standard deviation, gauge ratios).

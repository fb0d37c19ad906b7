//! Core of a terminal benchmarking tool for shell commands: the benchmark
//! state machine, its statistics, and the text it shows.
pub mod config;
pub mod display;
pub mod duration;
pub mod float;
pub mod laws;
pub mod messages;
pub mod power;
pub mod run;
pub mod state;
pub mod stats;
pub mod text;

pub use config::{exits_dashboard, Key, UsageError};
pub use display::{failed_label, log_kind, mode_label, progress_label, LogKind, StatRow};
pub use duration::fmt_dur;
pub use power::{is_power_saver_output, is_power_saver_profile};
pub use run::{CommandOutcome, RunResult};
pub use state::{BenchState, Phase, Step};
pub use stats::DURATION_MAX_NS;

//! What the dashboard shows of a benchmark: labels, the history sparkline,
//! the colour class of a log line and the part of the log that fits.
use vstd::prelude::*;
use crate::run::RunResult;
use crate::state::{lines_view, wall_time_at, BenchState, Phase};
use crate::stats::{max_ns, mean_ns, min_ns, sum_ns, DURATION_MAX_NS};
use crate::float::{
    binade, binade_exec, div_round_half_even, div_round_half_even_exec, f64_shift,
    f64_significand, lemma_binade, lemma_div_round_half_even_monotone, lemma_pow2_facts,
    lemma_pow2_le, lemma_pow2_more, pow2_exec, to_f64_exec,
};
use crate::text::{decimal, push_char, push_decimal};
use vstd::arithmetic::power2::{lemma_pow2_adds, lemma_pow2_unfold, pow2};

verus! {

/// Label of a phase in the header.
pub open spec fn phase_label_spec(p: Phase) -> Seq<char> {
    match p {
        Phase::Idle => "IDLE"@,
        Phase::Warmup => "WARMING UP"@,
        Phase::Benchmarking => "BENCHMARKING"@,
        Phase::Done => "DONE"@,
    }
}

impl Phase {
    /// Label of the phase in the header.
    pub fn label(&self) -> (r: &'static str)
        ensures
            r@ == phase_label_spec(*self),
    {
        match self {
            Phase::Idle => "IDLE",
            Phase::Warmup => "WARMING UP",
            Phase::Benchmarking => "BENCHMARKING",
            Phase::Done => "DONE",
        }
    }
}

/// Name of the execution mode.
pub fn mode_label(parallel: bool) -> (r: &'static str)
    ensures
        r@ == if parallel {
            "parallel"@
        } else {
            "sequential"@
        },
{
    if parallel {
        "parallel"
    } else {
        "sequential"
    }
}

/// "done/total", as the gauges and the success row show progress.
pub open spec fn progress_label_spec(done: nat, total: nat) -> Seq<char> {
    decimal(done) + seq!['/'] + decimal(total)
}

pub fn progress_label(done: usize, total: usize) -> (r: String)
    ensures
        r@ == progress_label_spec(done as nat, total as nat),
{
    let mut s = String::new();
    push_decimal(&mut s, done as u128);
    push_char(&mut s, '/');
    push_decimal(&mut s, total as u128);
    s
}

/// The warning row for `n` failed runs.
pub fn failed_label(n: usize) -> (r: String)
    ensures
        r@ == decimal(n as nat) + " run(s) failed!"@,
{
    let mut s = String::new();
    push_decimal(&mut s, n as u128);
    s.append(" run(s) failed!");
    s
}

/// Number of most recent runs that the history sparkline shows.
pub const HISTORY_LEN: usize = 30;

/// `(7.0 * (off as f64 / span as f64)).round()` for `1 <= off <= span`, in
/// integer terms (see `float`). `off as f64` is `ma * 2^sa` and `span as f64`
/// is `mb * 2^sb`, with `d = sb - sa`; the quotient has binary exponent
/// `c - 53 - d`, where `c = binade(ma * 2^53, mb)`, so it is
/// `mq * 2^(c - 105 - d)`. Its product with 7, of exponent `f - 52` above
/// that, rounds to `mp * 2^(f - 52)` times the same power, that is
/// `mp / 2^s`; rounding half away from zero gives `floor(mp / 2^s + 1/2)`.
pub open spec fn spark_position(off: nat, span: nat) -> nat {
    let ma = f64_significand(off);
    let sa = f64_shift(off);
    let mb = f64_significand(span);
    let sb = f64_shift(span);
    let d = (sb - sa) as nat;
    let c = binade(ma * pow2(53), mb);
    let mq = div_round_half_even(ma * pow2((105 - c) as nat), mb);
    let f = binade(7 * mq, 1);
    let mp = div_round_half_even(7 * mq, pow2((f - 52) as nat));
    let s = (157 + d - c - f) as nat;
    (2 * mp + pow2(s)) / pow2(s + 1)
}

/// Bar height (0 to 7) of a run of `us` microseconds when the runs range
/// from `min_us` to `max_us`: its offset from `min_us` over the range, in
/// `f64`, times 7 and rounded, halves away from zero; the middle height 4
/// when all runs took equally long.
pub open spec fn spark_level(us: nat, min_us: nat, max_us: nat) -> nat {
    let idx: nat = if max_us <= min_us {
        4
    } else if us <= min_us {
        0
    } else {
        spark_position((us - min_us) as nat, (max_us - min_us) as nat)
    };
    if idx < 7 {
        idx
    } else {
        7
    }
}

/// The bar of a given height.
pub open spec fn spark_char(level: nat) -> char {
    if level == 0 {
        '▁'
    } else if level == 1 {
        '▂'
    } else if level == 2 {
        '▃'
    } else if level == 3 {
        '▄'
    } else if level == 4 {
        '▅'
    } else if level == 5 {
        '▆'
    } else if level == 6 {
        '▇'
    } else {
        '█'
    }
}

/// The sparkline character of one run: its bar, or '✗' for a failed run.
pub open spec fn history_char(r: RunResult, min_us: nat, max_us: nat) -> char {
    if r.ok {
        spark_char(spark_level(r.duration_ns as nat / 1000, min_us, max_us))
    } else {
        '✗'
    }
}

/// Index of the first run that the history shows.
pub open spec fn history_start(len: nat) -> nat {
    if len > HISTORY_LEN {
        (len - HISTORY_LEN) as nat
    } else {
        0
    }
}

/// The sparkline of the last `HISTORY_LEN` runs, oldest first, scaled
/// between the shortest and the longest of all runs.
pub open spec fn history_line(s: Seq<RunResult>) -> Seq<char> {
    let start = history_start(s.len());
    Seq::new(
        (s.len() - start) as nat,
        |k: int| history_char(s[start + k], min_ns(s) / 1000, max_ns(s) / 1000),
    )
}

fn spark_char_exec(level: u128) -> (c: char)
    ensures
        c == spark_char(level as nat),
{
    if level == 0 {
        '▁'
    } else if level == 1 {
        '▂'
    } else if level == 2 {
        '▃'
    } else if level == 3 {
        '▄'
    } else if level == 4 {
        '▅'
    } else if level == 5 {
        '▆'
    } else if level == 6 {
        '▇'
    } else {
        '█'
    }
}

fn spark_position_exec(off: u128, span: u128) -> (p: u128)
    requires
        1 <= off <= span,
    ensures
        p == spark_position(off as nat, span as nat),
{
    let (ma, sa) = to_f64_exec(off);
    let (mb, sb) = to_f64_exec(span);
    proof {
        lemma_pow2_facts();
        lemma_pow2_more();
        lemma_binade(off as nat, 1);
        lemma_binade(span as nat, 1);
        let eo = binade(off as nat, 1);
        let es = binade(span as nat, 1);
        if eo > es {
            lemma_pow2_le(es + 1, eo);
        }
        if sa == sb {
            vstd::arithmetic::power2::lemma_pow2_pos(sa as nat);
            lemma_div_round_half_even_monotone(off as nat, span as nat, pow2(sa as nat));
        }
    }
    let d = sb - sa;
    let p53 = pow2_exec(53);
    let num1 = ma * p53;
    let c = binade_exec(num1, mb);
    proof {
        lemma_binade(num1 as nat, mb as nat);
        if c >= 55 {
            lemma_pow2_le(55, c as nat);
            lemma_pow2_adds(53, 2);
            lemma_pow2_unfold(2);
            lemma_pow2_unfold(1);
            assert(pow2(55) == 4 * pow2(53));
            assert(false) by (nonlinear_arith)
                requires
                    mb * pow2(c as nat) <= ma * 0x20_0000_0000_0000,
                    pow2(55) <= pow2(c as nat),
                    pow2(55) == 4 * 0x20_0000_0000_0000,
                    d == 0 ==> ma <= mb,
                    d > 0 ==> mb >= 0x10_0000_0000_0000,
                    1 <= ma <= 0x20_0000_0000_0000,
                    mb >= 1,
            ;
        }
    }
    let k = 105 - c;
    let pk = pow2_exec(k);
    proof {
        lemma_pow2_adds(k as nat, (c + 1) as nat);
        lemma_pow2_adds(53, 53);
        lemma_pow2_unfold((c + 1) as nat);
        let pc = pow2(c as nat);
        let pc1 = pow2((c + 1) as nat);
        assert(ma * pk < mb * 0x20_0000_0000_0000 && mb * 0x10_0000_0000_0000 <= ma * pk)
            by (nonlinear_arith)
            requires
                mb * pc <= ma * 0x20_0000_0000_0000,
                ma * 0x20_0000_0000_0000 < mb * pc1,
                pc1 == 2 * pc,
                pk * pc1 == 0x400_0000_0000_0000_0000_0000_0000,
                pc > 0,
        ;
    }
    let num2 = ma * pk;
    let mq = div_round_half_even_exec(num2, mb);
    proof {
        vstd::arithmetic::div_mod::lemma_fundamental_div_mod(num2 as int, mb as int);
        let q = num2 / mb;
        let r = num2 % mb;
        assert(0x10_0000_0000_0000 <= q < 0x20_0000_0000_0000) by (nonlinear_arith)
            requires
                num2 == mb * q + r,
                0 <= r < mb,
                mb * 0x10_0000_0000_0000 <= num2,
                num2 < mb * 0x20_0000_0000_0000,
        ;
    }
    let seven = 7 * mq;
    let f = binade_exec(seven, 1);
    proof {
        lemma_binade(seven as nat, 1);
        if f <= 53 {
            lemma_pow2_le((f + 1) as nat, 54);
        }
        if f >= 56 {
            lemma_pow2_le(56, f as nat);
        }
    }
    let pf = pow2_exec(f - 52);
    proof {
        lemma_pow2_unfold(2);
        lemma_pow2_unfold(1);
        lemma_pow2_le(2, (f - 52) as nat);
    }
    let mp = div_round_half_even_exec(seven, pf);
    proof {
        assert(mp <= seven / pf + 1);
        assert(seven / pf <= seven / 4) by {
            vstd::arithmetic::div_mod::lemma_div_is_ordered_by_denominator(seven as int, 4, pf as int);
        }
    }
    let s = 157 + d - c - f;
    if s >= 56 {
        proof {
            lemma_pow2_le(56, s as nat);
            lemma_pow2_unfold((s + 1) as nat);
            vstd::arithmetic::div_mod::lemma_basic_div(
                (2 * mp + pow2(s as nat)) as int,
                pow2((s + 1) as nat) as int,
            );
        }
        0
    } else {
        let ps = pow2_exec(s);
        let ps1 = pow2_exec(s + 1);
        proof {
            lemma_pow2_le(s as nat, 56);
        }
        assert(mp <= 0x40_0000_0000_0000);
        (2 * mp + ps) / ps1
    }
}

fn spark_level_exec(us: u128, min_us: u128, max_us: u128) -> (l: u128)
    requires
        min_us <= us <= max_us,
    ensures
        l == spark_level(us as nat, min_us as nat, max_us as nat),
{
    let idx: u128 = if max_us <= min_us {
        4
    } else if us <= min_us {
        0
    } else {
        spark_position_exec(us - min_us, max_us - min_us)
    };
    if idx < 7 {
        idx
    } else {
        7
    }
}

impl BenchState {
    /// The history sparkline (see `history_line`); empty before the first run.
    pub fn history_bars(&self) -> (r: String)
        ensures
            r@ == history_line(self.results@),
    {
        let n = self.results.len();
        let mut s = String::new();
        if n == 0 {
            assert(s@ =~= history_line(self.results@));
            return s;
        }
        let min_us = match self.min_duration() {
            Some(m) => m / 1000,
            None => 0,
        };
        let max_us = match self.max_duration() {
            Some(m) => m / 1000,
            None => 0,
        };
        proof {
            crate::stats::lemma_min_max_bounds(self.results@);
        }
        let start: usize = if n > HISTORY_LEN {
            n - HISTORY_LEN
        } else {
            0
        };
        let ghost target = history_line(self.results@);
        let mut k: usize = start;
        while k < n
            invariant
                start <= k <= n,
                n == self.results@.len(),
                start == history_start(n as nat),
                min_us == min_ns(self.results@) / 1000,
                max_us == max_ns(self.results@) / 1000,
                forall|j: int|
                    0 <= j < n ==> min_ns(self.results@) <= #[trigger] self.results@[j].duration_ns
                        <= max_ns(self.results@),
                target == history_line(self.results@),
                s@ =~= target.subrange(0, k - start),
            decreases n - k,
        {
            let r = self.results[k];
            let c = if r.ok {
                let us = r.duration_ns / 1000;
                assert(min_us <= us <= max_us) by {
                    assert(min_ns(self.results@) <= r.duration_ns <= max_ns(self.results@));
                }
                spark_char_exec(spark_level_exec(us, min_us, max_us))
            } else {
                '✗'
            };
            push_char(&mut s, c);
            k = k + 1;
            assert(s@ =~= target.subrange(0, k - start));
        }
        assert(target.len() == n - start);
        s
    }

    /// The most recent log lines that fit in a panel `panel_height` rows
    /// high (two rows go to its border), oldest first.
    pub fn visible_log(&self, panel_height: u16) -> (r: Vec<String>)
        ensures
            lines_view(r@) == self.log_view().subrange(
                self.log@.len() - visible_count(self.log@.len(), panel_height),
                self.log@.len() as int,
            ),
    {
        let rows: u16 = if panel_height >= 2 {
            panel_height - 2
        } else {
            0
        };
        let n = self.log.len();
        let shown: usize = if (rows as usize) < n {
            rows as usize
        } else {
            n
        };
        let start = n - shown;
        let mut out: Vec<String> = Vec::new();
        let mut k: usize = start;
        while k < n
            invariant
                start <= k <= n,
                n == self.log@.len(),
                start == n - visible_count(n as nat, panel_height),
                lines_view(out@) =~= self.log_view().subrange(start as int, k as int),
            decreases n - k,
        {
            let line = self.log[k].clone();
            let ghost prev = out@;
            out.push(line);
            proof {
                assert(line@ == self.log_view()[k as int]);
                assert(lines_view(prev).len() == prev.len());
                assert forall|j: int| 0 <= j < out@.len() implies #[trigger] lines_view(out@)[j]
                    == self.log_view().subrange(start as int, k + 1)[j] by {
                    if j < prev.len() {
                        assert(out@[j] == prev[j]);
                        assert(lines_view(prev)[j] == self.log_view().subrange(
                            start as int,
                            k as int,
                        )[j]);
                    }
                }
            }
            k = k + 1;
            assert(lines_view(out@) =~= self.log_view().subrange(
                start as int,
                k as int,
            ));
        }
        out
    }
}

/// Number of log lines shown in a panel `panel_height` rows high holding
/// `len` lines.
pub open spec fn visible_count(len: nat, panel_height: u16) -> nat {
    let rows: nat = if panel_height >= 2 {
        (panel_height - 2) as nat
    } else {
        0
    };
    if rows < len {
        rows
    } else {
        len
    }
}

/// Colour class of a log line.
#[derive(Clone, Copy, Debug, PartialEq, Eq, Structural)]
pub enum LogKind {
    Failure,
    Success,
    RunStart,
    Warmup,
    Done,
    Other,
}

/// `t` occurs in `s` as a contiguous piece.
pub open spec fn has_substring(s: Seq<char>, t: Seq<char>) -> bool {
    exists|i: int| 0 <= i && i + t.len() <= s.len() && #[trigger] s.subrange(i, i + t.len()) == t
}

/// Colour class of a line: failures (a '✗' or "FAIL") first, then successes
/// ('✓'), run starts ('▶'), warmup starts ('⏳') and the final line ('🏁').
pub open spec fn log_kind_spec(line: Seq<char>) -> LogKind {
    if line.contains('✗') || has_substring(line, seq!['F', 'A', 'I', 'L']) {
        LogKind::Failure
    } else if line.contains('✓') {
        LogKind::Success
    } else if line.contains('▶') {
        LogKind::RunStart
    } else if line.contains('⏳') {
        LogKind::Warmup
    } else if line.contains('🏁') {
        LogKind::Done
    } else {
        LogKind::Other
    }
}

fn contains_char(line: &str, c: char) -> (r: bool)
    ensures
        r == line@.contains(c),
{
    let n = line.unicode_len();
    let mut i: usize = 0;
    while i < n
        invariant
            0 <= i <= n,
            n == line@.len(),
            forall|j: int| 0 <= j < i ==> line@[j] != c,
        decreases n - i,
    {
        if line.get_char(i) == c {
            assert(line@[i as int] == c);
            return true;
        }
        i = i + 1;
    }
    false
}

fn contains_fail(line: &str) -> (r: bool)
    ensures
        r == has_substring(line@, seq!['F', 'A', 'I', 'L']),
{
    let ghost t = seq!['F', 'A', 'I', 'L'];
    let n = line.unicode_len();
    if n < 4 {
        assert forall|i: int| 0 <= i && i + 4 <= line@.len() implies #[trigger] line@.subrange(
            i,
            i + 4,
        ) != t by {}
        return false;
    }
    let mut i: usize = 0;
    while i <= n - 4
        invariant
            0 <= i <= n - 3,
            n == line@.len(),
            n >= 4,
            forall|j: int| 0 <= j < i ==> #[trigger] line@.subrange(j, j + 4) != t,
            t == seq!['F', 'A', 'I', 'L'],
        decreases n - i,
    {
        let c0 = line.get_char(i);
        let c1 = line.get_char(i + 1);
        let c2 = line.get_char(i + 2);
        let c3 = line.get_char(i + 3);
        if c0 == 'F' && c1 == 'A' && c2 == 'I' && c3 == 'L' {
            assert(line@.subrange(i as int, i + 4) =~= t);
            assert(has_substring(line@, t));
            return true;
        }
        assert(line@.subrange(i as int, i + 4) != t) by {
            if line@.subrange(i as int, i + 4) == t {
                assert(line@.subrange(i as int, i + 4)[0] == line@[i as int]);
                assert(line@.subrange(i as int, i + 4)[1] == line@[i + 1]);
                assert(line@.subrange(i as int, i + 4)[2] == line@[i + 2]);
                assert(line@.subrange(i as int, i + 4)[3] == line@[i + 3]);
            }
        }
        i = i + 1;
    }
    assert forall|j: int| 0 <= j && j + 4 <= line@.len() implies #[trigger] line@.subrange(
        j,
        j + 4,
    ) != t by {}
    false
}

/// Colour class of a log line (see `log_kind_spec`).
pub fn log_kind(line: &str) -> (k: LogKind)
    ensures
        k == log_kind_spec(line@),
{
    if contains_char(line, '✗') || contains_fail(line) {
        LogKind::Failure
    } else if contains_char(line, '✓') {
        LogKind::Success
    } else if contains_char(line, '▶') {
        LogKind::RunStart
    } else if contains_char(line, '⏳') {
        LogKind::Warmup
    } else if contains_char(line, '🏁') {
        LogKind::Done
    } else {
        LogKind::Other
    }
}


/// A row of the statistics table, in the order the table shows them.
#[derive(Clone, Copy, Debug, PartialEq, Eq, Structural)]
pub enum StatRow {
    /// Sequential or parallel.
    Mode,
    /// Wall time of the timed phase, in nanoseconds.
    WallTime(u128),
    /// Shortest run, in nanoseconds.
    Min(u128),
    /// Longest run, in nanoseconds.
    Max(u128),
    /// Mean run, in nanoseconds.
    Mean(u128),
    /// Standard deviation of the runs (computed by the caller).
    StdDev,
    /// Successful runs out of those finished.
    Success,
    /// Number of failed runs.
    Failed,
    /// The history sparkline.
    History,
}

impl StatRow {
    /// The row's name in the table.
    pub fn label(&self) -> (r: &'static str)
        ensures
            r@ == stat_row_label(*self),
    {
        match self {
            StatRow::Mode => "Mode",
            StatRow::WallTime(_) => "Wall time",
            StatRow::Min(_) => "Min",
            StatRow::Max(_) => "Max",
            StatRow::Mean(_) => "Mean",
            StatRow::StdDev => "Std dev",
            StatRow::Success => "Success",
            StatRow::Failed => "Failed",
            StatRow::History => "History",
        }
    }
}

/// The row's name in the table.
pub open spec fn stat_row_label(r: StatRow) -> Seq<char> {
    match r {
        StatRow::Mode => "Mode"@,
        StatRow::WallTime(_) => "Wall time"@,
        StatRow::Min(_) => "Min"@,
        StatRow::Max(_) => "Max"@,
        StatRow::Mean(_) => "Mean"@,
        StatRow::StdDev => "Std dev"@,
        StatRow::Success => "Success"@,
        StatRow::Failed => "Failed"@,
        StatRow::History => "History"@,
    }
}

/// `row` when `shown`, else nothing.
pub open spec fn row_if(shown: bool, row: StatRow) -> Seq<StatRow> {
    if shown {
        seq![row]
    } else {
        Seq::empty()
    }
}

/// The rows of the statistics table at clock reading `now`: the mode; the
/// wall time once timing has started; minimum, maximum and mean once a run
/// has finished; the standard deviation from two runs on; the successes;
/// the failures when there are any; the history once a run has finished.
pub open spec fn stat_rows_spec(s: &BenchState, now: u64) -> Seq<StatRow> {
    let n = s.results@.len();
    let wall = wall_time_at(s.bench_start, s.bench_end, now);
    seq![StatRow::Mode] + row_if(wall is Some, StatRow::WallTime(wall->0 as u128)) + row_if(
        n > 0,
        StatRow::Min(min_ns(s.results@) as u128),
    ) + row_if(n > 0, StatRow::Max(max_ns(s.results@) as u128)) + row_if(
        n > 0,
        StatRow::Mean(mean_ns(s.results@) as u128),
    ) + row_if(n >= 2, StatRow::StdDev) + seq![StatRow::Success] + row_if(
        s.nok_count > 0,
        StatRow::Failed,
    ) + row_if(n > 0, StatRow::History)
}

impl BenchState {
    /// The rows of the statistics table (see `stat_rows_spec`).
    pub fn stat_rows(&self, now_ns: u64) -> (r: Vec<StatRow>)
        requires
            self.results@.len() > 0 ==> (self.results@.len() as u32) != 0,
            sum_ns(self.results@) <= DURATION_MAX_NS,
        ensures
            r@ == stat_rows_spec(self, now_ns),
    {
        let mut rows: Vec<StatRow> = Vec::new();
        rows.push(StatRow::Mode);
        let ghost a = rows@;
        if let Some(w) = self.total_wall_time(now_ns) {
            rows.push(StatRow::WallTime(w));
        }
        let ghost b = rows@;
        if let Some(v) = self.min_duration() {
            rows.push(StatRow::Min(v));
        }
        let ghost c = rows@;
        if let Some(v) = self.max_duration() {
            rows.push(StatRow::Max(v));
        }
        let ghost d = rows@;
        if let Some(v) = self.mean_duration() {
            rows.push(StatRow::Mean(v));
        }
        let ghost e = rows@;
        if self.results.len() >= 2 {
            rows.push(StatRow::StdDev);
        }
        let ghost f = rows@;
        rows.push(StatRow::Success);
        let ghost g = rows@;
        if self.nok_count > 0 {
            rows.push(StatRow::Failed);
        }
        let ghost h = rows@;
        if self.results.len() > 0 {
            rows.push(StatRow::History);
        }
        proof {
            let n = self.results@.len();
            let wall = wall_time_at(self.bench_start, self.bench_end, now_ns);
            assert(a =~= seq![StatRow::Mode]);
            assert(b =~= a + row_if(wall is Some, StatRow::WallTime(wall->0 as u128)));
            assert(c =~= b + row_if(n > 0, StatRow::Min(min_ns(self.results@) as u128)));
            assert(d =~= c + row_if(n > 0, StatRow::Max(max_ns(self.results@) as u128)));
            assert(e =~= d + row_if(n > 0, StatRow::Mean(mean_ns(self.results@) as u128)));
            assert(f =~= e + row_if(n >= 2, StatRow::StdDev));
            assert(g =~= f + seq![StatRow::Success]);
            assert(h =~= g + row_if(self.nok_count > 0, StatRow::Failed));
            assert(rows@ =~= h + row_if(n > 0, StatRow::History));
        }
        rows
    }
}

} // verus!

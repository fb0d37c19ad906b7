//! Properties of the benchmark that span several functions.
use vstd::prelude::*;
use crate::display::{
    progress_label_spec, spark_level, visible_count, has_substring, history_char, history_line, history_start, log_kind_spec, LogKind, HISTORY_LEN,
};
use crate::duration::{fmt_dur_spec, ms_hundredths, secs_thousandths};
use crate::float::{binade, div_round_half_even, lemma_binade, lemma_pow2_facts, lemma_pow2_le, lemma_pow2_more};
use vstd::arithmetic::power2::{lemma_pow2_adds, lemma_pow2_pos, lemma_pow2_unfold, pow2};
use crate::messages::{
    done_line, ordinal_of, run_done_line, run_start_line, warmup_done_line, warmup_start_line,
};
use crate::run::RunResult;
use crate::state::{wall_time_at, BenchState, Phase, Step};
use crate::stats::{count_ok, lemma_min_max_bounds, lemma_sum_between, max_ns, mean_ns, min_ns, sum_ns};
use crate::text::{
    decimal, digit_char, fixed_digits, is_white_space, join_words, signed_decimal, trim_end_spec,
    trim_spec, trim_start_spec,
};

verus! {

/// The characters that decide the colour of a log line.
spec fn is_marker(c: char) -> bool {
    c == '✗' || c == 'F' || c == '✓' || c == '▶' || c == '⏳' || c == '🏁'
}

spec fn marker_free(s: Seq<char>) -> bool {
    forall|i: int| 0 <= i < s.len() ==> !is_marker(#[trigger] s[i])
}

proof fn lemma_concat_marker_free(a: Seq<char>, b: Seq<char>)
    requires
        marker_free(a),
        marker_free(b),
    ensures
        marker_free(a + b),
{
    assert forall|i: int| 0 <= i < (a + b).len() implies !is_marker(#[trigger] (a + b)[i]) by {
        if i < a.len() {
            assert((a + b)[i] == a[i]);
        } else {
            assert((a + b)[i] == b[i - a.len()]);
        }
    }
}

/// `a` starts with a marker and nothing after it in `a + b` is one.
proof fn lemma_head_then_free(a: Seq<char>, b: Seq<char>)
    requires
        a.len() > 0,
        marker_free(a.drop_first()),
        marker_free(b),
    ensures
        (a + b).len() > 0,
        (a + b)[0] == a[0],
        marker_free((a + b).drop_first()),
{
    assert((a + b).drop_first() =~= a.drop_first() + b);
    lemma_concat_marker_free(a.drop_first(), b);
}

proof fn lemma_digit_not_marker(d: nat)
    requires
        d < 10,
    ensures
        !is_marker(digit_char(d)),
{
}

proof fn lemma_decimal_marker_free(n: nat)
    ensures
        marker_free(decimal(n)),
        decimal(n).len() > 0,
    decreases n,
{
    lemma_digit_not_marker(n % 10);
    if n >= 10 {
        lemma_decimal_marker_free(n / 10);
    }
}

proof fn lemma_fixed_digits_marker_free(n: nat, w: nat)
    ensures
        marker_free(fixed_digits(n, w)),
    decreases w,
{
    if w > 0 {
        lemma_digit_not_marker(n % 10);
        lemma_fixed_digits_marker_free(n / 10, (w - 1) as nat);
    }
}

proof fn lemma_fmt_dur_marker_free(ns: nat)
    ensures
        marker_free(fmt_dur_spec(ns)),
{
    let us = ns / 1000;
    if us < 1000 {
        lemma_decimal_marker_free(us);
        lemma_concat_marker_free(decimal(us), seq!['µ', 's']);
    } else if us < 1_000_000 {
        let h = crate::duration::ms_hundredths(us);
        lemma_decimal_marker_free(h / 100);
        lemma_fixed_digits_marker_free(h % 100, 2);
        lemma_concat_marker_free(decimal(h / 100), seq!['.']);
        lemma_concat_marker_free(decimal(h / 100) + seq!['.'], fixed_digits(h % 100, 2));
        lemma_concat_marker_free(
            decimal(h / 100) + seq!['.'] + fixed_digits(h % 100, 2),
            seq!['m', 's'],
        );
    } else {
        let t = crate::duration::secs_thousandths(ns);
        lemma_decimal_marker_free(t / 1000);
        lemma_fixed_digits_marker_free(t % 1000, 3);
        lemma_concat_marker_free(decimal(t / 1000), seq!['.']);
        lemma_concat_marker_free(decimal(t / 1000) + seq!['.'], fixed_digits(t % 1000, 3));
        lemma_concat_marker_free(
            decimal(t / 1000) + seq!['.'] + fixed_digits(t % 1000, 3),
            seq!['s'],
        );
    }
}

proof fn lemma_ordinal_marker_free(i: nat, n: nat)
    ensures
        marker_free(ordinal_of(i, n)),
{
    lemma_decimal_marker_free(i + 1);
    lemma_decimal_marker_free(n);
    lemma_concat_marker_free(decimal(i + 1), seq!['/']);
    lemma_concat_marker_free(decimal(i + 1) + seq!['/'], decimal(n));
}

spec fn kind_of_marker(c: char) -> LogKind {
    if c == '✗' {
        LogKind::Failure
    } else if c == '✓' {
        LogKind::Success
    } else if c == '▶' {
        LogKind::RunStart
    } else if c == '⏳' {
        LogKind::Warmup
    } else {
        LogKind::Done
    }
}

/// A line whose first character is a marker and whose other characters are
/// not gets the colour of that marker.
proof fn lemma_kind_of_marked_line(line: Seq<char>)
    requires
        line.len() > 0,
        is_marker(line[0]),
        line[0] != 'F',
        marker_free(line.drop_first()),
    ensures
        log_kind_spec(line) == kind_of_marker(line[0]),
{
    let head = line[0];
    assert forall|i: int| 1 <= i < line.len() implies !is_marker(#[trigger] line[i]) by {
        assert(line[i] == line.drop_first()[i - 1]);
    }
    assert(line.contains(head));
    assert forall|c: char| is_marker(c) && c != head implies !line.contains(c) by {
        if line.contains(c) {
            let k = choose|k: int| 0 <= k < line.len() && line[k] == c;
            if k > 0 {
                assert(!is_marker(line[k]));
            }
        }
    }
    let fail = seq!['F', 'A', 'I', 'L'];
    assert(!has_substring(line, fail)) by {
        if has_substring(line, fail) {
            let k = choose|k: int|
                0 <= k && k + fail.len() <= line.len() && #[trigger] line.subrange(k, k + fail.len())
                    == fail;
            assert(line.subrange(k, k + 4)[0] == line[k]);
            if k > 0 {
                assert(!is_marker(line[k]));
            }
        }
    }
}

/// Every line the benchmark logs gets the colour of the event it reports:
/// warmup starts, run starts and the final line their own colours, finished
/// warmup runs and successful runs the success colour, failed runs the
/// failure colour.
pub proof fn lemma_log_line_kinds(i: nat, n: nat, parallel: bool, r: RunResult)
    ensures
        log_kind_spec(warmup_start_line(i, n)) == LogKind::Warmup,
        log_kind_spec(warmup_done_line(i, n)) == LogKind::Success,
        log_kind_spec(run_start_line(i, n, parallel)) == LogKind::RunStart,
        log_kind_spec(run_done_line(i, n, r)) == if r.ok {
            LogKind::Success
        } else {
            LogKind::Failure
        },
        log_kind_spec(done_line()) == LogKind::Done,
{
    reveal_strlit("⏳ Warmup ");
    reveal_strlit("✓  Warmup ");
    reveal_strlit(" done");
    reveal_strlit("▶ Run ");
    reveal_strlit(" (parallel)");
    reveal_strlit("✓  Run ");
    reveal_strlit(" — ");
    reveal_strlit(" [exit:0]");
    reveal_strlit("✗  Run ");
    reveal_strlit("🏁 Done! Press q or Esc to exit.");
    lemma_ordinal_marker_free(i, n);
    let ord = ordinal_of(i, n);

    assert(marker_free("⏳ Warmup "@.drop_first()));
    lemma_head_then_free("⏳ Warmup "@, ord);
    lemma_kind_of_marked_line(warmup_start_line(i, n));

    assert(marker_free("✓  Warmup "@.drop_first()));
    assert(marker_free(" done"@));
    lemma_head_then_free("✓  Warmup "@, ord);
    lemma_head_then_free("✓  Warmup "@ + ord, " done"@);
    lemma_kind_of_marked_line(warmup_done_line(i, n));

    assert(marker_free("▶ Run "@.drop_first()));
    assert(marker_free(" (parallel)"@));
    lemma_head_then_free("▶ Run "@, ord);
    lemma_head_then_free("▶ Run "@ + ord, " (parallel)"@);
    lemma_kind_of_marked_line(run_start_line(i, n, parallel));

    if r.ok {
        let d = fmt_dur_spec(r.duration_ns as nat);
        lemma_fmt_dur_marker_free(r.duration_ns as nat);
        assert(marker_free("✓  Run "@.drop_first()));
        assert(marker_free(" — "@));
        assert(marker_free(" [exit:0]"@));
        lemma_head_then_free("✓  Run "@, ord);
        lemma_head_then_free("✓  Run "@ + ord, " — "@);
        lemma_head_then_free("✓  Run "@ + ord + " — "@, d);
        lemma_head_then_free("✓  Run "@ + ord + " — "@ + d, " [exit:0]"@);
        lemma_kind_of_marked_line(run_done_line(i, n, r));
    } else {
        let line = run_done_line(i, n, r);
        assert(line[0] == '✗');
        assert(line.contains('✗'));
    }

    assert(marker_free(done_line().drop_first()));
    lemma_kind_of_marked_line(done_line());
}

/// The mean lies between the shortest and the longest run. It needs the
/// count to fit in a `u32`: with 2^32 + 1 runs the count wraps to 1 and the
/// mean becomes the total.
pub proof fn lemma_mean_between_min_and_max(s: Seq<RunResult>)
    requires
        0 < s.len() <= u32::MAX,
    ensures
        min_ns(s) <= mean_ns(s) <= max_ns(s),
{
    lemma_sum_between(s);
    let n = s.len();
    assert((n as u32) as nat == n);
    let total = sum_ns(s);
    let lo = min_ns(s);
    let hi = max_ns(s);
    vstd::arithmetic::div_mod::lemma_div_is_ordered((n * lo) as int, total as int, n as int);
    vstd::arithmetic::div_mod::lemma_div_is_ordered(total as int, (n * hi) as int, n as int);
    vstd::arithmetic::div_mod::lemma_div_multiples_vanish(lo as int, n as int);
    vstd::arithmetic::div_mod::lemma_div_multiples_vanish(hi as int, n as int);
}

/// In a consistent state every finished run is counted exactly once: as a
/// success when its result is a success, as a failure otherwise.
pub proof fn lemma_counts_match_results(s: &BenchState)
    requires
        s.wf(),
    ensures
        s.ok_count + s.nok_count == s.runs_done,
        s.runs_done == s.results@.len(),
        s.ok_count == count_ok(s.results@),
        s.nok_count == s.results@.len() - count_ok(s.results@),
        s.runs_done <= s.total_runs,
{
}

proof fn lemma_remove_one(s: Seq<RunResult>, k: int)
    requires
        0 <= k < s.len(),
    ensures
        sum_ns(s) == sum_ns(s.remove(k)) + s[k].duration_ns,
        count_ok(s) == count_ok(s.remove(k)) + if s[k].ok {
            1nat
        } else {
            0nat
        },
    decreases s.len(),
{
    if k == s.len() - 1 {
        assert(s.remove(k) =~= s.drop_last());
    } else {
        let t = s.drop_last();
        lemma_remove_one(t, k);
        assert(s.remove(k).drop_last() =~= t.remove(k));
        assert(s.remove(k).last() == s.last());
    }
}

proof fn lemma_sum_and_count_ignore_order(s1: Seq<RunResult>, s2: Seq<RunResult>)
    requires
        s1.to_multiset() == s2.to_multiset(),
    ensures
        s1.len() == s2.len(),
        sum_ns(s1) == sum_ns(s2),
        count_ok(s1) == count_ok(s2),
    decreases s1.len(),
{
    broadcast use vstd::seq_lib::group_to_multiset_ensures;

    if s1.len() > 0 {
        let x = s1.last();
        assert(s1.to_multiset().count(x) > 0) by {
            assert(s1.contains(x)) by {
                assert(s1[s1.len() - 1] == x);
            }
        }
        assert(s2.contains(x));
        let k = choose|k: int| 0 <= k < s2.len() && s2[k] == x;
        assert(s1.remove(s1.len() - 1) =~= s1.drop_last());
        assert(s1.drop_last().to_multiset() =~= s1.to_multiset().remove(x));
        assert(s2.remove(k).to_multiset() =~= s2.to_multiset().remove(x));
        lemma_sum_and_count_ignore_order(s1.drop_last(), s2.remove(k));
        lemma_remove_one(s2, k);
    } else {
        assert(s2.to_multiset().len() == 0);
    }
}

/// The statistics do not depend on the order in which the runs finished:
/// runs that are the same results in another order have the same total,
/// minimum, maximum, mean and number of successes.
pub proof fn lemma_statistics_ignore_order(s1: Seq<RunResult>, s2: Seq<RunResult>)
    requires
        s1.to_multiset() == s2.to_multiset(),
    ensures
        s1.len() == s2.len(),
        sum_ns(s1) == sum_ns(s2),
        count_ok(s1) == count_ok(s2),
        min_ns(s1) == min_ns(s2),
        max_ns(s1) == max_ns(s2),
        mean_ns(s1) == mean_ns(s2),
{
    broadcast use vstd::seq_lib::group_to_multiset_ensures;

    lemma_sum_and_count_ignore_order(s1, s2);
    if s1.len() > 0 {
        lemma_min_max_bounds(s1);
        lemma_min_max_bounds(s2);
        assert forall|a: Seq<RunResult>, b: Seq<RunResult>|
            a.to_multiset() == b.to_multiset() && a.len() > 0 && b.len() > 0 implies min_ns(b)
            <= min_ns(a) && max_ns(a) <= max_ns(b) by {
            lemma_min_max_bounds(a);
            lemma_min_max_bounds(b);
            let i = choose|i: int| 0 <= i < a.len() && a[i].duration_ns == min_ns(a);
            let j = choose|j: int| 0 <= j < a.len() && a[j].duration_ns == max_ns(a);
            assert(a.contains(a[i]));
            assert(a.contains(a[j]));
            assert(a.to_multiset().count(a[i]) > 0);
            assert(a.to_multiset().count(a[j]) > 0);
            assert(b.to_multiset().count(a[i]) > 0);
            assert(b.to_multiset().count(a[j]) > 0);
            assert(b.contains(a[i]));
            assert(b.contains(a[j]));
            let ki = choose|k: int| 0 <= k < b.len() && b[k] == a[i];
            let kj = choose|k: int| 0 <= k < b.len() && b[k] == a[j];
            assert(min_ns(b) <= b[ki].duration_ns);
            assert(b[kj].duration_ns <= max_ns(b));
        }
    }
}

/// In a consistent state, the timed phase starts only once every warmup run
/// has finished, results exist only once it has started, and a finished
/// benchmark holds one result per timed run: at least one when at least one
/// run was asked for, so its minimum, maximum and mean exist.
pub proof fn lemma_run_order(s: &BenchState)
    requires
        s.wf(),
    ensures
        s.bench_start.is_some() ==> s.warmup_done == s.warmup_runs,
        s.results@.len() > 0 ==> s.bench_start.is_some(),
        s.phase == Phase::Done ==> s.results@.len() == s.total_runs,
        s.phase == Phase::Done && s.total_runs >= 1 ==> s.results@.len() >= 1,
{
}

/// The step that `next_step` returns is one the state accepts: each step's
/// precondition holds, and only a finished benchmark has nothing left to do.
pub proof fn lemma_next_step_is_allowed(s: &BenchState)
    requires
        s.wf(),
    ensures
        s.next_step_spec() == Step::EnterWarmup ==> s.phase == Phase::Idle,
        s.next_step_spec() matches Step::Warmup(i) ==> {
            &&& s.phase == Phase::Warmup
            &&& i == s.warmup_done
            &&& i < s.warmup_runs
        },
        s.next_step_spec() == Step::BeginTiming ==> s.phase == Phase::Warmup && s.warmup_done
            == s.warmup_runs,
        s.next_step_spec() matches Step::Run(i) ==> {
            &&& s.phase == Phase::Benchmarking
            &&& !s.parallel
            &&& i == s.runs_done
            &&& i < s.total_runs
        },
        s.next_step_spec() == Step::RunAllInParallel ==> {
            &&& s.phase == Phase::Benchmarking
            &&& s.parallel
            &&& s.runs_done < s.total_runs
        },
        s.next_step_spec() == Step::Finish ==> s.phase == Phase::Benchmarking && s.runs_done
            == s.total_runs,
        s.next_step_spec() == Step::Stop <==> s.phase == Phase::Done,
{
}

/// The number that a string of decimal digits denotes.
pub open spec fn digits_value(s: Seq<char>) -> nat
    decreases s.len(),
{
    if s.len() == 0 {
        0
    } else {
        digits_value(s.drop_last()) * 10 + ((s.last() as u32) - 48) as nat
    }
}

/// Every character is one of '0' to '9'.
pub open spec fn all_digits(s: Seq<char>) -> bool {
    forall|i: int| 0 <= i < s.len() ==> '0' <= #[trigger] s[i] <= '9'
}

/// `decimal(n)` is the decimal writing of `n`: digits only, denoting `n`,
/// with no leading zero.
pub proof fn lemma_decimal_denotes(n: nat)
    ensures
        all_digits(decimal(n)),
        digits_value(decimal(n)) == n,
        decimal(n).len() >= 1,
        n >= 10 ==> decimal(n).len() >= 2,
        decimal(n).len() == 1 || decimal(n)[0] != '0',
    decreases n,
{
    let d = n % 10;
    assert(digit_char(d) as u32 == d + 48);
    if n >= 10 {
        lemma_decimal_denotes(n / 10);
        let t = decimal(n / 10);
        assert(decimal(n).drop_last() =~= t);
        assert(decimal(n).last() == digit_char(d));
        assert(digits_value(decimal(n)) == digits_value(t) * 10 + d);
        assert(decimal(n)[0] == t[0]);
        if n / 10 < 10 {
            assert(t[0] == digit_char(n / 10));
            assert(digit_char(n / 10) as u32 == n / 10 + 48);
        }
        assert forall|i: int| 0 <= i < decimal(n).len() implies '0' <= #[trigger] decimal(n)[i]
            <= '9' by {
            if i < t.len() {
                assert(decimal(n)[i] == t[i]);
            }
        }
    } else {
        assert(decimal(n).drop_last() =~= Seq::<char>::empty());
        assert(decimal(n).last() == digit_char(d));
        assert(digits_value(decimal(n)) == digits_value(Seq::<char>::empty()) * 10 + d);
    }
}

/// Every run-log ordinal reads back as the 1-based run number and the run
/// count: digits denoting `i + 1`, one '/', digits denoting `n`.
pub proof fn lemma_ordinal_reads_back(i: nat, n: nat)
    ensures
        exists|k: int|
            0 < k < ordinal_of(i, n).len() - 1 && #[trigger] ordinal_of(i, n)[k] == '/'
                && all_digits(ordinal_of(i, n).take(k)) && digits_value(ordinal_of(i, n).take(k))
                == i + 1 && all_digits(ordinal_of(i, n).skip(k + 1)) && digits_value(
                ordinal_of(i, n).skip(k + 1),
            ) == n,
{
    lemma_decimal_denotes(i + 1);
    lemma_decimal_denotes(n);
    let o = ordinal_of(i, n);
    let k = decimal(i + 1).len() as int;
    assert(o.take(k) =~= decimal(i + 1));
    assert(o.skip(k + 1) =~= decimal(n));
    assert(o[k] == '/');
}

/// The joined command is the words with exactly one space between two
/// neighbours: one word is itself, and adding a word adds a space and it.
pub proof fn lemma_join_adds_one_space(ws: Seq<Seq<char>>, w: Seq<char>)
    ensures
        join_words(Seq::<Seq<char>>::empty()) == Seq::<char>::empty(),
        join_words(seq![w]) == w,
        ws.len() > 0 ==> join_words(ws.push(w)) == join_words(ws) + seq![' '] + w,
{
    assert(ws.push(w).drop_last() =~= ws);
    assert(seq![w].len() == 1);
}

/// Total length of the words.
pub open spec fn total_len(ws: Seq<Seq<char>>) -> nat
    decreases ws.len(),
{
    if ws.len() == 0 {
        0
    } else {
        total_len(ws.drop_last()) + ws.last().len()
    }
}

/// The joined command is as long as its words plus one space between each
/// two neighbours.
pub proof fn lemma_join_length(ws: Seq<Seq<char>>)
    requires
        ws.len() > 0,
    ensures
        join_words(ws).len() == total_len(ws) + ws.len() - 1,
    decreases ws.len(),
{
    if ws.len() > 1 {
        lemma_join_length(ws.drop_last());
        assert(join_words(ws) == join_words(ws.drop_last()) + seq![' '] + ws.last());
    } else {
        assert(ws.drop_last().len() == 0);
        assert(ws.last() == ws[0]);
        assert(total_len(ws) == total_len(ws.drop_last()) + ws.last().len());
    }
}

/// The total of the runs grows by each run's duration: none for no runs,
/// and one more run adds its duration.
pub proof fn lemma_sum_adds_durations(s: Seq<RunResult>, r: RunResult)
    ensures
        sum_ns(Seq::<RunResult>::empty()) == 0,
        sum_ns(s.push(r)) == sum_ns(s) + r.duration_ns,
{
    assert(s.push(r).drop_last() =~= s);
}

/// The mean is the total divided by the count (taken as a `u32`), rounded
/// down: `mean * count <= total < (mean + 1) * count`.
pub proof fn lemma_mean_is_floor_of_total_over_count(s: Seq<RunResult>)
    requires
        (s.len() as u32) != 0,
    ensures
        mean_ns(s) * ((s.len() as u32) as nat) <= sum_ns(s) < (mean_ns(s) + 1) * ((s.len() as u32) as nat),
        s.len() <= u32::MAX ==> mean_ns(s) * s.len() <= sum_ns(s) < (mean_ns(s) + 1) * s.len(),
{
    let c = (s.len() as u32) as nat;
    let t = sum_ns(s);
    let m = t / c;
    vstd::arithmetic::div_mod::lemma_fundamental_div_mod(t as int, c as int);
    assert(m * c <= t < (m + 1) * c) by (nonlinear_arith)
        requires
            t == c * m + t % c,
            0 <= t % c < c,
    ;
    if s.len() <= u32::MAX {
        assert(c == s.len());
    }
}

/// Wall time in terms of the clock readings: a finished timed phase lasted
/// from its start to its end, a running one from its start to now, and a
/// reading before the start counts as no time.
pub proof fn lemma_wall_time_is_elapsed(start: u64, end: u64, now: u64)
    ensures
        end >= start ==> wall_time_at(Some(start), Some(end), now) == Some((end - start) as nat),
        end < start ==> wall_time_at(Some(start), Some(end), now) == Some(0nat),
        now >= start ==> wall_time_at(Some(start), None, now) == Some((now - start) as nat),
        now < start ==> wall_time_at(Some(start), None, now) == Some(0nat),
        wall_time_at(None, Some(end), now) is None,
        wall_time_at(None, None, now) is None,
{
}

/// The history's scale runs from the shortest to the longest of all runs,
/// failed runs included: for any `lo` and `hi` that are the least and the
/// greatest run time in microseconds, each shown run gets its bar on the
/// scale from `lo` to `hi`.
pub proof fn lemma_history_scale_is_all_runs(s: Seq<RunResult>, lo: nat, hi: nat)
    requires
        forall|k: int| 0 <= k < s.len() ==> lo <= #[trigger] s[k].duration_ns / 1000 <= hi,
        exists|k: int| 0 <= k < s.len() && #[trigger] s[k].duration_ns / 1000 == lo,
        exists|k: int| 0 <= k < s.len() && #[trigger] s[k].duration_ns / 1000 == hi,
    ensures
        forall|j: int|
            0 <= j < history_line(s).len() ==> #[trigger] history_line(s)[j] == history_char(
                s[history_start(s.len()) + j],
                lo,
                hi,
            ),
{
    lemma_min_max_bounds(s);
    let a = choose|k: int| 0 <= k < s.len() && #[trigger] s[k].duration_ns / 1000 == lo;
    let b = choose|k: int| 0 <= k < s.len() && #[trigger] s[k].duration_ns / 1000 == hi;
    let ka = choose|k: int| 0 <= k < s.len() && s[k].duration_ns == min_ns(s);
    let kb = choose|k: int| 0 <= k < s.len() && s[k].duration_ns == max_ns(s);
    let _ = s[ka].duration_ns / 1000;
    let _ = s[kb].duration_ns / 1000;
    assert(min_ns(s) <= s[a].duration_ns);
    assert(s[b].duration_ns <= max_ns(s));
    vstd::arithmetic::div_mod::lemma_div_is_ordered(min_ns(s) as int, s[a].duration_ns as int, 1000);
    vstd::arithmetic::div_mod::lemma_div_is_ordered(s[b].duration_ns as int, max_ns(s) as int, 1000);
    assert(min_ns(s) / 1000 == lo);
    assert(max_ns(s) / 1000 == hi);
}

/// `10^w`.
pub open spec fn pow10(w: nat) -> nat
    decreases w,
{
    if w == 0 {
        1
    } else {
        10 * pow10((w - 1) as nat)
    }
}

/// `fixed_digits(n, w)` is `w` digits denoting `n` modulo `10^w`: the last
/// `w` digits of `n`, zero-padded.
pub proof fn lemma_fixed_digits_denote(n: nat, w: nat)
    ensures
        fixed_digits(n, w).len() == w,
        all_digits(fixed_digits(n, w)),
        digits_value(fixed_digits(n, w)) == n % pow10(w),
    decreases w,
{
    if w == 0 {
    } else {
        let w1 = (w - 1) as nat;
        lemma_fixed_digits_denote(n / 10, w1);
        let t = fixed_digits(n / 10, w1);
        let f = fixed_digits(n, w);
        assert(f.drop_last() =~= t);
        assert(f.last() == digit_char(n % 10));
        assert(digit_char(n % 10) as u32 == n % 10 + 48);
        assert(digits_value(f) == digits_value(t) * 10 + n % 10);
        assert forall|i: int| 0 <= i < f.len() implies '0' <= #[trigger] f[i] <= '9' by {
            if i < t.len() {
                assert(f[i] == t[i]);
            }
        }
        assert(pow10(w1) > 0) by {
            lemma_pow10_positive(w1);
        }
        vstd::arithmetic::div_mod::lemma_mod_breakdown(n as int, 10, pow10(w1) as int);
    }
}

proof fn lemma_pow10_positive(w: nat)
    ensures
        pow10(w) > 0,
    decreases w,
{
    if w > 0 {
        lemma_pow10_positive((w - 1) as nat);
    }
}

/// `signed_decimal(n)` is '-' before the digits of `-n` for negative `n`,
/// and the digits of `n` otherwise.
pub proof fn lemma_signed_decimal_denotes(n: int)
    ensures
        n < 0 ==> signed_decimal(n)[0] == '-' && all_digits(signed_decimal(n).drop_first())
            && digits_value(signed_decimal(n).drop_first()) == -n,
        n >= 0 ==> all_digits(signed_decimal(n)) && digits_value(signed_decimal(n)) == n,
{
    if n < 0 {
        lemma_decimal_denotes((-n) as nat);
        assert(signed_decimal(n).drop_first() =~= decimal((-n) as nat));
    } else {
        lemma_decimal_denotes(n as nat);
    }
}

/// The number of successes grows by one for each successful run.
pub proof fn lemma_count_ok_adds_successes(s: Seq<RunResult>, r: RunResult)
    ensures
        count_ok(Seq::<RunResult>::empty()) == 0,
        count_ok(s.push(r)) == count_ok(s) + if r.ok {
            1nat
        } else {
            0nat
        },
        count_ok(s) <= s.len(),
    decreases s.len(),
{
    assert(s.push(r).drop_last() =~= s);
    if s.len() > 0 {
        lemma_count_ok_adds_successes(s.drop_last(), s.last());
    }
}

proof fn lemma_trim_start_shape(s: Seq<char>)
    ensures
        exists|a: int|
            0 <= a <= s.len() && trim_start_spec(s) == #[trigger] s.skip(a) && (forall|k: int|
                0 <= k < a ==> is_white_space(#[trigger] s[k])),
        trim_start_spec(s).len() > 0 ==> !is_white_space(trim_start_spec(s)[0]),
    decreases s.len(),
{
    if s.len() > 0 && is_white_space(s[0]) {
        let t = s.drop_first();
        lemma_trim_start_shape(t);
        let a = choose|a: int|
            0 <= a <= t.len() && trim_start_spec(t) == #[trigger] t.skip(a) && (forall|k: int|
                0 <= k < a ==> is_white_space(#[trigger] t[k]));
        assert(t.skip(a) =~= s.skip(a + 1));
        assert forall|k: int| 0 <= k < a + 1 implies is_white_space(#[trigger] s[k]) by {
            if k > 0 {
                assert(s[k] == t[k - 1]);
            }
        }
    } else {
        assert(s.skip(0) =~= s);
    }
}

proof fn lemma_trim_end_shape(s: Seq<char>)
    ensures
        exists|b: int|
            0 <= b <= s.len() && trim_end_spec(s) == #[trigger] s.take(b) && (forall|k: int|
                b <= k < s.len() ==> is_white_space(#[trigger] s[k])),
        trim_end_spec(s).len() > 0 ==> !is_white_space(trim_end_spec(s).last()),
    decreases s.len(),
{
    if s.len() > 0 && is_white_space(s.last()) {
        let t = s.drop_last();
        lemma_trim_end_shape(t);
        let b = choose|b: int|
            0 <= b <= t.len() && trim_end_spec(t) == #[trigger] t.take(b) && (forall|k: int|
                b <= k < t.len() ==> is_white_space(#[trigger] t[k]));
        assert(t.take(b) =~= s.take(b));
        assert forall|k: int| b <= k < s.len() implies is_white_space(#[trigger] s[k]) by {
            if k < t.len() {
                assert(s[k] == t[k]);
            }
        }
    } else {
        assert(s.take(s.len() as int) =~= s);
    }
}

/// Trimming removes white space from both ends and nothing else: the result
/// is a contiguous part of the text, everything before and after it is white
/// space, and it neither starts nor ends with white space.
pub proof fn lemma_trim_removes_only_outer_white_space(s: Seq<char>)
    ensures
        exists|a: int, b: int|
            0 <= a <= b <= s.len() && trim_spec(s) == #[trigger] s.subrange(a, b) && (forall|k: int|
                0 <= k < a ==> is_white_space(#[trigger] s[k])) && (forall|k: int|
                b <= k < s.len() ==> is_white_space(#[trigger] s[k])),
        trim_spec(s).len() > 0 ==> !is_white_space(trim_spec(s)[0]) && !is_white_space(
            trim_spec(s).last(),
        ),
{
    lemma_trim_start_shape(s);
    let a = choose|a: int|
        0 <= a <= s.len() && trim_start_spec(s) == #[trigger] s.skip(a) && (forall|k: int|
            0 <= k < a ==> is_white_space(#[trigger] s[k]));
    let t = s.skip(a);
    lemma_trim_end_shape(t);
    let b = choose|b: int|
        0 <= b <= t.len() && trim_end_spec(t) == #[trigger] t.take(b) && (forall|k: int|
            b <= k < t.len() ==> is_white_space(#[trigger] t[k]));
    assert(t.take(b) =~= s.subrange(a, a + b));
    assert forall|k: int| a + b <= k < s.len() implies is_white_space(#[trigger] s[k]) by {
        assert(s[k] == t[k - a]);
    }
    assert(s.subrange(a, a + b) == trim_spec(s));
    if trim_spec(s).len() > 0 {
        assert(trim_spec(s)[0] == t.take(b)[0]);
        assert(t.take(b)[0] == t[0]);
    }
}

/// Rounding to the nearest multiple is off by at most half the divisor.
pub proof fn lemma_round_half_even_error(n: nat, d: nat)
    requires
        d > 0,
    ensures
        2 * (d * div_round_half_even(n, d) - n) <= d,
        2 * (n - d * div_round_half_even(n, d)) <= d,
{
    vstd::arithmetic::div_mod::lemma_fundamental_div_mod(n as int, d as int);
    let q = n / d;
    let r = n % d;
    assert(d * (q + 1) == d * q + d) by (nonlinear_arith);
}

proof fn lemma_binade_unique(num: nat, den: nat, k: nat)
    requires
        den > 0,
        den * pow2(k) <= num < den * pow2(k + 1),
    ensures
        binade(num, den) == k,
{
    lemma_pow2_pos(k);
    assert(den <= num) by (nonlinear_arith)
        requires
            den * pow2(k) <= num,
            pow2(k) >= 1,
    ;
    lemma_binade(num, den);
    let b = binade(num, den);
    if b < k {
        lemma_pow2_le(b + 1, k);
        assert(den * pow2(b + 1) <= den * pow2(k)) by (nonlinear_arith)
            requires
                pow2(b + 1) <= pow2(k),
        ;
    } else if b > k {
        lemma_pow2_le(k + 1, b);
        assert(den * pow2(k + 1) <= den * pow2(b)) by (nonlinear_arith)
            requires
                pow2(k + 1) <= pow2(b),
        ;
    }
}

/// The milliseconds shown are within half a hundredth of the exact value:
/// ten times the hundredths shown differ from the microseconds by at most 5.
pub proof fn lemma_ms_hundredths_close(us: nat)
    requires
        1000 <= us < 1_000_000,
    ensures
        us <= 10 * ms_hundredths(us) + 5,
        10 * ms_hundredths(us) <= us + 5,
{
    lemma_binade(us, 1000);
    lemma_pow2_facts();
    let e = binade(us, 1000);
    if e >= 10 {
        lemma_pow2_le(10, e);
    }
    let k = (52 - e) as nat;
    lemma_pow2_le(43, k);
    lemma_pow2_adds(10, 33);
    lemma_pow2_adds(32, 1);
    vstd::arithmetic::power2::lemma2_to64();
    let p = pow2(k);
    assert(p >= 2048);
    let m = div_round_half_even(us * p, 1000);
    let h = div_round_half_even(m * 100, p);
    lemma_round_half_even_error(us * p, 1000);
    lemma_round_half_even_error(m * 100, p);
    assert(us <= 10 * h + 5 && 10 * h <= us + 5) by (nonlinear_arith)
        requires
            2 * (1000 * m - us * p) <= 1000,
            2 * (us * p - 1000 * m) <= 1000,
            2 * (p * h - m * 100) <= p,
            2 * (m * 100 - p * h) <= p,
            p >= 2048,
    ;
}

/// The history bar of a run: the shortest run gets the lowest bar, the
/// longest the highest, and all runs the middle bar when they took equally
/// long.
pub proof fn lemma_spark_level_ends(lo: nat, hi: nat, x: nat)
    ensures
        hi > lo ==> spark_level(lo, lo, hi) == 0,
        hi > lo ==> spark_level(hi, lo, hi) == 7,
        hi <= lo ==> spark_level(x, lo, hi) == 4,
{
    if hi > lo {
        let b = (hi - lo) as nat;
        let sh = crate::float::f64_shift(b);
        let m = crate::float::f64_significand(b);
        lemma_pow2_pos(sh);
        lemma_pow2_facts();
        lemma_pow2_more();
        lemma_binade(b, 1);
        vstd::arithmetic::div_mod::lemma_fundamental_div_mod(b as int, pow2(sh) as int);
        lemma_round_half_even_error(b, pow2(sh));
        assert(m >= 1) by {
            if sh > 0 {
                lemma_pow2_adds(52, sh);
                assert(pow2(52) * pow2(sh) <= b);
                assert(b / pow2(sh) >= pow2(52)) by {
                    vstd::arithmetic::div_mod::lemma_div_is_ordered(
                        (pow2(52) * pow2(sh)) as int,
                        b as int,
                        pow2(sh) as int,
                    );
                    vstd::arithmetic::div_mod::lemma_div_multiples_vanish(
                        pow2(52) as int,
                        pow2(sh) as int,
                    );
                    assert(pow2(52) * pow2(sh) == pow2(sh) * pow2(52)) by (nonlinear_arith);
                }
            } else {
                assert(pow2(0) == 1);
                vstd::arithmetic::div_mod::lemma_div_by_multiple(b as int, 1);
            }
        }
        lemma_pow2_adds(53, 0);
        lemma_pow2_unfold(53);
        assert(m * pow2(53) == m * (2 * pow2(52))) by (nonlinear_arith)
            requires pow2(53) == 2 * pow2(52);
        lemma_pow2_unfold(54);
        assert(m * pow2(53) < m * pow2(54)) by (nonlinear_arith)
            requires
                pow2(54) == 2 * pow2(53),
                m >= 1,
                pow2(53) >= 1,
        ;
        lemma_binade_unique(m * pow2(53), m, 53);
        assert(m * pow2(52) == m * 0x10_0000_0000_0000);
        assert((m * 0x10_0000_0000_0000) / m == 0x10_0000_0000_0000) by {
            vstd::arithmetic::div_mod::lemma_div_multiples_vanish(0x10_0000_0000_0000, m as int);
            assert(m * 0x10_0000_0000_0000 == 0x10_0000_0000_0000 * m) by (nonlinear_arith);
        }
        assert((m * 0x10_0000_0000_0000) % m == 0) by {
            vstd::arithmetic::div_mod::lemma_mod_multiples_basic(0x10_0000_0000_0000, m as int);
            assert(m * 0x10_0000_0000_0000 == 0x10_0000_0000_0000 * m) by (nonlinear_arith);
        }
        let mq = div_round_half_even(m * pow2(52), m);
        assert(mq == 0x10_0000_0000_0000);
        lemma_pow2_unfold(55);
        lemma_binade_unique(7 * mq, 1, 54);
        lemma_pow2_unfold(2);
        lemma_pow2_unfold(1);
        let mp = div_round_half_even(7 * mq, pow2(2));
        assert(mp == 7 * 0x4_0000_0000_0000);
        lemma_pow2_adds(50, 4);
        lemma_pow2_adds(50, 1);
        lemma_pow2_adds(32, 18);
        vstd::arithmetic::power2::lemma2_to64();
        assert(pow2(50) == 0x4_0000_0000_0000);
        assert(pow2(51) == 0x8_0000_0000_0000);
        assert((2 * mp + pow2(50)) / pow2(51) == 7);
        assert(binade(m * pow2(53), m) == 53);
        assert(binade(7 * mq, 1) == 54);
        assert(crate::display::spark_position(b, b) == 7);
        assert(spark_level(hi, lo, hi) == 7);
    }
}

/// The log panel shows as many of the latest lines as fit inside its
/// border: all of them when they fit, else as many as the panel has rows
/// inside (its height less 2), none in a panel too small for a row.
pub proof fn lemma_visible_count_fits(len: nat, panel_height: u16)
    ensures
        panel_height <= 2 ==> visible_count(len, panel_height) == 0,
        panel_height > 2 && len + 2 <= panel_height ==> visible_count(len, panel_height) == len,
        panel_height > 2 && len + 2 > panel_height ==> visible_count(len, panel_height)
            == panel_height - 2,
{
}

/// A progress label reads back as the two counts: digits denoting `done`,
/// one '/', digits denoting `total`.
pub proof fn lemma_progress_label_reads_back(done: nat, total: nat)
    ensures
        exists|k: int|
            0 < k < progress_label_spec(done, total).len() - 1
                && #[trigger] progress_label_spec(done, total)[k] == '/' && all_digits(
                progress_label_spec(done, total).take(k),
            ) && digits_value(progress_label_spec(done, total).take(k)) == done && all_digits(
                progress_label_spec(done, total).skip(k + 1),
            ) && digits_value(progress_label_spec(done, total).skip(k + 1)) == total,
{
    lemma_decimal_denotes(done);
    lemma_decimal_denotes(total);
    let o = progress_label_spec(done, total);
    let k = decimal(done).len() as int;
    assert(o.take(k) =~= decimal(done));
    assert(o.skip(k + 1) =~= decimal(total));
    assert(o[k] == '/');
}

/// How a formatted duration reads: below a millisecond, digits denoting
/// the whole microseconds, then "µs"; below a second, digits, '.', two
/// digits and "ms", denoting within half a hundredth the exact milliseconds;
/// from a second on, digits, '.', three digits and "s", denoting the
/// thousandths shown.
pub proof fn lemma_fmt_dur_reads_back(ns: nat)
    ensures
        ns < 1_000_000 ==> {
            let f = fmt_dur_spec(ns);
            &&& f.len() >= 3
            &&& f.skip(f.len() - 2) == seq!['µ', 's']
            &&& all_digits(f.take(f.len() - 2))
            &&& digits_value(f.take(f.len() - 2)) == ns / 1000
        },
        1_000_000 <= ns < 1_000_000_000 ==> {
            let f = fmt_dur_spec(ns);
            let us = ns / 1000;
            exists|k: int|
                0 < k && k + 5 == f.len() && #[trigger] f[k] == '.' && all_digits(f.take(k))
                    && all_digits(f.subrange(k + 1, k + 3)) && f.skip(k + 3) == seq!['m', 's'] && {
                    let v = 100 * digits_value(f.take(k)) + digits_value(f.subrange(k + 1, k + 3));
                    us <= 10 * v + 5 && 10 * v <= us + 5
                }
        },
        ns >= 1_000_000_000 ==> {
            let f = fmt_dur_spec(ns);
            exists|k: int|
                0 < k && k + 5 == f.len() && #[trigger] f[k] == '.' && all_digits(f.take(k))
                    && all_digits(f.subrange(k + 1, k + 4)) && f.last() == 's' && 1000
                    * digits_value(f.take(k)) + digits_value(f.subrange(k + 1, k + 4))
                    == secs_thousandths(ns)
        },
{
    let f = fmt_dur_spec(ns);
    let us = ns / 1000;
    if us < 1000 {
        lemma_decimal_denotes(us);
        assert(f.take(f.len() - 2) =~= decimal(us));
        assert(f.skip(f.len() - 2) =~= seq!['µ', 's']);
    } else if us < 1_000_000 {
        let h = ms_hundredths(us);
        lemma_decimal_denotes(h / 100);
        lemma_fixed_digits_denote(h % 100, 2);
        lemma_ms_hundredths_close(us);
        let k = decimal(h / 100).len() as int;
        assert(f.take(k) =~= decimal(h / 100));
        assert(f.subrange(k + 1, k + 3) =~= fixed_digits(h % 100, 2));
        assert(f.skip(k + 3) =~= seq!['m', 's']);
        assert(f[k] == '.');
        assert(pow10(2) == 100) by {
            assert(pow10(0) == 1);
            assert(pow10(1) == 10);
        }
        assert(100 * (h / 100) + h % 100 == h);
    } else {
        let t = secs_thousandths(ns);
        lemma_decimal_denotes(t / 1000);
        lemma_fixed_digits_denote(t % 1000, 3);
        let k = decimal(t / 1000).len() as int;
        assert(f.take(k) =~= decimal(t / 1000));
        assert(f.subrange(k + 1, k + 4) =~= fixed_digits(t % 1000, 3));
        assert(f[k] == '.');
        assert(pow10(3) == 1000) by {
            assert(pow10(0) == 1);
            assert(pow10(1) == 10);
            assert(pow10(2) == 100);
        }
        assert(1000 * (t / 1000) + t % 1000 == t);
    }
}

/// Once the benchmark is done its wall time no longer depends on the clock.
pub proof fn lemma_wall_time_fixed_when_done(s: &BenchState, now1: u64, now2: u64)
    requires
        s.wf(),
        s.phase == Phase::Done,
    ensures
        wall_time_at(s.bench_start, s.bench_end, now1) == wall_time_at(
            s.bench_start,
            s.bench_end,
            now2,
        ),
        wall_time_at(s.bench_start, s.bench_end, now1) is Some,
{
}

/// While the timed runs are going on the wall time grows with the clock;
/// before they start there is none.
pub proof fn lemma_wall_time_while_running(s: &BenchState, now1: u64, now2: u64)
    requires
        s.wf(),
        now1 <= now2,
    ensures
        s.phase == Phase::Benchmarking ==> wall_time_at(s.bench_start, s.bench_end, now1)->0
            <= wall_time_at(s.bench_start, s.bench_end, now2)->0,
        s.phase == Phase::Benchmarking ==> wall_time_at(s.bench_start, s.bench_end, now1) is Some,
        (s.phase == Phase::Idle || s.phase == Phase::Warmup) ==> wall_time_at(
            s.bench_start,
            s.bench_end,
            now1,
        ) is None,
{
}

/// The history shows the last `HISTORY_LEN` runs (all of them when there are
/// fewer), oldest first, with '✗' exactly for the failed ones.
pub proof fn lemma_history_shape(s: Seq<RunResult>)
    ensures
        history_line(s).len() == if s.len() < HISTORY_LEN {
            s.len()
        } else {
            HISTORY_LEN as nat
        },
        forall|k: int|
            0 <= k < history_line(s).len() ==> (#[trigger] history_line(s)[k] == '✗' <==> !s[s.len()
                - history_line(s).len() + k].ok),
{
}

/// The unit of a formatted duration: "µs" below a millisecond, "ms" below a
/// second, "s" after a digit from a second on.
pub proof fn lemma_fmt_dur_unit(ns: nat)
    ensures
        fmt_dur_spec(ns).len() >= 2,
        fmt_dur_spec(ns).last() == 's',
        (fmt_dur_spec(ns)[fmt_dur_spec(ns).len() - 2] == 'µ') <==> ns < 1_000_000,
        (fmt_dur_spec(ns)[fmt_dur_spec(ns).len() - 2] == 'm') <==> (1_000_000 <= ns
            < 1_000_000_000),
{
    let us = ns / 1000;
    let f = fmt_dur_spec(ns);
    if us < 1000 {
        lemma_decimal_marker_free(us);
    } else if us < 1_000_000 {
        lemma_decimal_marker_free(0);
    } else {
        let t = crate::duration::secs_thousandths(ns);
        lemma_decimal_marker_free(t / 1000);
        let fx = fixed_digits(t % 1000, 3);
        assert(fx.last() == digit_char(t % 1000 % 10));
        assert(f[f.len() - 2] == fx.last());
    }
}

} // verus!

//! The lines the benchmark writes to its run log.
use vstd::prelude::*;
use crate::duration::{fmt_dur, fmt_dur_spec};
use crate::run::RunResult;
use crate::text::{decimal, push_decimal, signed_decimal, push_signed_decimal};

verus! {

/// "i/n" with a 1-based run number, as shown in every log line.
pub open spec fn ordinal_of(i: nat, n: nat) -> Seq<char> {
    decimal(i + 1) + seq!['/'] + decimal(n)
}

/// Logged when warmup run `i` (0-based) of `n` starts.
pub open spec fn warmup_start_line(i: nat, n: nat) -> Seq<char> {
    "⏳ Warmup "@ + ordinal_of(i, n)
}

/// Logged when warmup run `i` (0-based) of `n` has finished.
pub open spec fn warmup_done_line(i: nat, n: nat) -> Seq<char> {
    "✓  Warmup "@ + ordinal_of(i, n) + " done"@
}

/// Logged when timed run `i` (0-based) of `n` starts.
pub open spec fn run_start_line(i: nat, n: nat, parallel: bool) -> Seq<char> {
    if parallel {
        "▶ Run "@ + ordinal_of(i, n) + " (parallel)"@
    } else {
        "▶ Run "@ + ordinal_of(i, n)
    }
}

/// Logged when timed run `i` (0-based) of `n` has finished with result `r`.
pub open spec fn run_done_line(i: nat, n: nat, r: RunResult) -> Seq<char> {
    if r.ok {
        "✓  Run "@ + ordinal_of(i, n) + " — "@ + fmt_dur_spec(r.duration_ns as nat) + " [exit:0]"@
    } else {
        "✗  Run "@ + ordinal_of(i, n) + " FAILED — "@ + fmt_dur_spec(r.duration_ns as nat)
            + " [exit:"@ + signed_decimal(r.exit_code as int) + "]"@
    }
}

/// Logged once every timed run has finished.
pub open spec fn done_line() -> Seq<char> {
    "🏁 Done! Press q or Esc to exit."@
}

fn push_ordinal(s: &mut String, i: usize, n: usize)
    requires
        i < n,
    ensures
        final(s)@ == old(s)@ + ordinal_of(i as nat, n as nat),
{
    push_decimal(s, (i + 1) as u128);
    s.append("/");
    proof {
        reveal_strlit("/");
    }
    push_decimal(s, n as u128);
    assert(final(s)@ =~= old(s)@ + ordinal_of(i as nat, n as nat));
}

pub fn warmup_start_message(i: usize, n: usize) -> (r: String)
    requires
        i < n,
    ensures
        r@ == warmup_start_line(i as nat, n as nat),
{
    let mut s = String::new();
    s.append("⏳ Warmup ");
    push_ordinal(&mut s, i, n);
    assert(s@ =~= warmup_start_line(i as nat, n as nat));
    s
}

pub fn warmup_done_message(i: usize, n: usize) -> (r: String)
    requires
        i < n,
    ensures
        r@ == warmup_done_line(i as nat, n as nat),
{
    let mut s = String::new();
    s.append("✓  Warmup ");
    push_ordinal(&mut s, i, n);
    s.append(" done");
    assert(s@ =~= warmup_done_line(i as nat, n as nat));
    s
}

pub fn run_start_message(i: usize, n: usize, parallel: bool) -> (r: String)
    requires
        i < n,
    ensures
        r@ == run_start_line(i as nat, n as nat, parallel),
{
    let mut s = String::new();
    s.append("▶ Run ");
    push_ordinal(&mut s, i, n);
    if parallel {
        s.append(" (parallel)");
    }
    assert(s@ =~= run_start_line(i as nat, n as nat, parallel));
    s
}

pub fn run_done_message(i: usize, n: usize, r: &RunResult) -> (m: String)
    requires
        i < n,
    ensures
        m@ == run_done_line(i as nat, n as nat, *r),
{
    let mut s = String::new();
    if r.ok {
        s.append("✓  Run ");
        push_ordinal(&mut s, i, n);
        s.append(" — ");
        let d = fmt_dur(r.duration_ns);
        s.append(d.as_str());
        s.append(" [exit:0]");
    } else {
        s.append("✗  Run ");
        push_ordinal(&mut s, i, n);
        s.append(" FAILED — ");
        let d = fmt_dur(r.duration_ns);
        s.append(d.as_str());
        s.append(" [exit:");
        push_signed_decimal(&mut s, r.exit_code);
        s.append("]");
    }
    assert(s@ =~= run_done_line(i as nat, n as nat, *r));
    s
}

pub fn done_message() -> (r: String)
    ensures
        r@ == done_line(),
{
    let mut s = String::new();
    s.append("🏁 Done! Press q or Esc to exit.");
    assert(s@ =~= done_line());
    s
}

} // verus!

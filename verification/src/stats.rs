//! Statistics over a sequence of run results: minimum, maximum and mean
//! duration, and the number of successful runs.
use vstd::prelude::*;
use crate::run::RunResult;

verus! {

/// The largest duration that `std::time::Duration` can hold, in nanoseconds.
pub const DURATION_MAX_NS: u128 = 18446744073709551615999999999;

/// Total duration of all runs, in nanoseconds.
pub open spec fn sum_ns(s: Seq<RunResult>) -> nat
    decreases s.len(),
{
    if s.len() == 0 {
        0
    } else {
        sum_ns(s.drop_last()) + s.last().duration_ns as nat
    }
}

/// Shortest duration among the runs (0 for no runs).
pub open spec fn min_ns(s: Seq<RunResult>) -> nat
    decreases s.len(),
{
    if s.len() == 0 {
        0
    } else if s.len() == 1 {
        s[0].duration_ns as nat
    } else {
        let m = min_ns(s.drop_last());
        if s.last().duration_ns < m {
            s.last().duration_ns as nat
        } else {
            m
        }
    }
}

/// Longest duration among the runs (0 for no runs).
pub open spec fn max_ns(s: Seq<RunResult>) -> nat
    decreases s.len(),
{
    if s.len() == 0 {
        0
    } else if s.len() == 1 {
        s[0].duration_ns as nat
    } else {
        let m = max_ns(s.drop_last());
        if s.last().duration_ns > m {
            s.last().duration_ns as nat
        } else {
            m
        }
    }
}

/// Number of successful runs.
pub open spec fn count_ok(s: Seq<RunResult>) -> nat
    decreases s.len(),
{
    if s.len() == 0 {
        0
    } else {
        count_ok(s.drop_last()) + if s.last().ok {
            1nat
        } else {
            0nat
        }
    }
}

/// Mean duration as `Duration` division computes it: the total divided by
/// the number of runs taken as a `u32`, rounded down.
pub open spec fn mean_ns(s: Seq<RunResult>) -> nat {
    sum_ns(s) / ((s.len() as u32) as nat)
}

/// The sum over a prefix never exceeds the sum over a longer prefix.
pub proof fn lemma_sum_prefix_monotone(s: Seq<RunResult>, i: int, j: int)
    requires
        0 <= i <= j <= s.len(),
    ensures
        sum_ns(s.take(i)) <= sum_ns(s.take(j)),
    decreases j - i,
{
    if i < j {
        assert(s.take(j).drop_last() =~= s.take(j - 1));
        lemma_sum_prefix_monotone(s, i, j - 1);
    }
}

/// The minimum is a lower bound of every run and is the duration of some run;
/// likewise the maximum is an upper bound and is attained.
pub proof fn lemma_min_max_bounds(s: Seq<RunResult>)
    requires
        s.len() > 0,
    ensures
        forall|k: int| 0 <= k < s.len() ==> min_ns(s) <= #[trigger] s[k].duration_ns <= max_ns(s),
        exists|k: int| 0 <= k < s.len() && s[k].duration_ns == min_ns(s),
        exists|k: int| 0 <= k < s.len() && s[k].duration_ns == max_ns(s),
    decreases s.len(),
{
    if s.len() > 1 {
        let t = s.drop_last();
        lemma_min_max_bounds(t);
        assert forall|k: int| 0 <= k < s.len() implies min_ns(s) <= #[trigger] s[k].duration_ns
            <= max_ns(s) by {
            if k < s.len() - 1 {
                assert(s[k] == t[k]);
            }
        }
        let km = choose|k: int| 0 <= k < t.len() && t[k].duration_ns == min_ns(t);
        let kx = choose|k: int| 0 <= k < t.len() && t[k].duration_ns == max_ns(t);
        assert(s[km] == t[km]);
        assert(s[kx] == t[kx]);
        if s.last().duration_ns < min_ns(t) {
            assert(s[s.len() - 1].duration_ns == min_ns(s));
        } else {
            assert(s[km].duration_ns == min_ns(s));
        }
        if s.last().duration_ns > max_ns(t) {
            assert(s[s.len() - 1].duration_ns == max_ns(s));
        } else {
            assert(s[kx].duration_ns == max_ns(s));
        }
    } else {
        assert(s[0].duration_ns == min_ns(s));
        assert(s[0].duration_ns == max_ns(s));
    }
}

/// The total lies between the count times the minimum and the count times
/// the maximum.
pub proof fn lemma_sum_between(s: Seq<RunResult>)
    requires
        s.len() > 0,
    ensures
        s.len() * min_ns(s) <= sum_ns(s) <= s.len() * max_ns(s),
    decreases s.len(),
{
    if s.len() == 1 {
        assert(s.drop_last().len() == 0);
    } else {
        let t = s.drop_last();
        lemma_sum_between(t);
        let a = min_ns(s);
        let b = max_ns(s);
        let x = s.last().duration_ns as nat;
        assert(a <= min_ns(t) && a <= x);
        assert(b >= max_ns(t) && b >= x);
        let n = t.len();
        assert(n * a <= n * min_ns(t)) by (nonlinear_arith)
            requires
                a <= min_ns(t),
        ;
        assert(n * max_ns(t) <= n * b) by (nonlinear_arith)
            requires
                max_ns(t) <= b,
        ;
        assert(s.len() * a == n * a + a) by (nonlinear_arith)
            requires
                s.len() == n + 1,
        ;
        assert(s.len() * b == n * b + b) by (nonlinear_arith)
            requires
                s.len() == n + 1,
        ;
    }
}

/// Finds the shortest run duration.
pub fn min_duration_of(results: &Vec<RunResult>) -> (r: Option<u128>)
    ensures
        r == if results@.len() == 0 {
            None::<u128>
        } else {
            Some(min_ns(results@) as u128)
        },
{
    if results.len() == 0 {
        return None;
    }
    let mut m: u128 = results[0].duration_ns;
    let mut i: usize = 1;
    assert(results@.take(1).len() == 1);
    while i < results.len()
        invariant
            1 <= i <= results.len(),
            m == min_ns(results@.take(i as int)),
        decreases results.len() - i,
    {
        let d = results[i].duration_ns;
        assert(results@.take(i + 1).drop_last() =~= results@.take(i as int));
        if d < m {
            m = d;
        }
        i = i + 1;
    }
    assert(results@.take(results.len() as int) =~= results@);
    Some(m)
}

/// Finds the longest run duration.
pub fn max_duration_of(results: &Vec<RunResult>) -> (r: Option<u128>)
    ensures
        r == if results@.len() == 0 {
            None::<u128>
        } else {
            Some(max_ns(results@) as u128)
        },
{
    if results.len() == 0 {
        return None;
    }
    let mut m: u128 = results[0].duration_ns;
    let mut i: usize = 1;
    assert(results@.take(1).len() == 1);
    while i < results.len()
        invariant
            1 <= i <= results.len(),
            m == max_ns(results@.take(i as int)),
        decreases results.len() - i,
    {
        let d = results[i].duration_ns;
        assert(results@.take(i + 1).drop_last() =~= results@.take(i as int));
        if d > m {
            m = d;
        }
        i = i + 1;
    }
    assert(results@.take(results.len() as int) =~= results@);
    Some(m)
}

/// Mean run duration, rounded down to whole nanoseconds.
pub fn mean_duration_of(results: &Vec<RunResult>) -> (r: Option<u128>)
    requires
        results@.len() > 0 ==> (results@.len() as u32) != 0,
        sum_ns(results@) <= DURATION_MAX_NS,
    ensures
        r == if results@.len() == 0 {
            None::<u128>
        } else {
            Some(mean_ns(results@) as u128)
        },
{
    if results.len() == 0 {
        return None;
    }
    let mut total: u128 = 0;
    let mut i: usize = 0;
    while i < results.len()
        invariant
            0 <= i <= results.len(),
            total == sum_ns(results@.take(i as int)),
            sum_ns(results@) <= DURATION_MAX_NS,
        decreases results.len() - i,
    {
        assert(results@.take(i + 1).drop_last() =~= results@.take(i as int));
        proof {
            lemma_sum_prefix_monotone(results@, i + 1, results@.len() as int);
            assert(results@.take(results@.len() as int) =~= results@);
        }
        total = total + results[i].duration_ns;
        i = i + 1;
    }
    assert(results@.take(results.len() as int) =~= results@);
    #[verifier::truncate]
    let count: u32 = results.len() as u32;
    Some(total / (count as u128))
}

} // verus!

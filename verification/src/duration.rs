//! Human-readable rendering of durations, which the library holds as whole
//! nanoseconds.
//!
//! Milliseconds and seconds are shown with a fixed number of decimals of an
//! `f64` value, so the digits depend on how that value is rounded to an `f64`.
//! The specifications below state that rounding in integer terms: an `f64`
//! of magnitude `2^e` (with `e` its binary exponent) is a multiple of
//! `2^(e-52)`, and arithmetic results are rounded to the nearest such
//! multiple, ties to an even multiple. Printing with `p` decimals rounds the
//! exact value of the `f64` to `p` decimals, ties to even.
use vstd::prelude::*;
use vstd::arithmetic::power2::{lemma2_to64, lemma_pow2_adds, lemma_pow2_pos, lemma_pow2_unfold, pow2};
use crate::float::{
    binade, binade_exec, div_round_half_even, div_round_half_even_exec,
    div_round_half_even_offset, lemma_binade, lemma_pow2_facts, lemma_pow2_le, pow2_exec,
};
use crate::text::{decimal, fixed_digits, push_char, push_decimal, push_fixed_digits};

verus! {

/// Hundredths shown for `us` microseconds (from one millisecond to below one
/// second): `us / 1000` is rounded to an `f64`, which has exponent
/// `e = binade(us, 1000)` and is `m / 2^(52-e)`; it is printed with two
/// decimals.
pub open spec fn ms_hundredths(us: nat) -> nat {
    let k = (52 - binade(us, 1000)) as nat;
    let m = div_round_half_even(us * pow2(k), 1000);
    div_round_half_even(m * 100, pow2(k))
}

/// Thousandths shown for `ns` nanoseconds (one second or more), from the
/// `f64` that `Duration::as_secs_f64` returns: the whole seconds `secs` as an
/// `f64` plus the `f64` nearest to the fraction `sub / 10^9`, the sum rounded
/// to an `f64`, which is printed with three decimals.
///
/// When `secs` has exponent `e <= 52` it is exact; the fraction is
/// `fm / 2^fk` with `fk = 83 - binade(sub * 2^31, 10^9)`, and the sum, of
/// exponent `e`, is `d / 2^(52-e)`. From exponent 53 on, the seconds round to
/// a multiple of `g = 2^(e-52)`, and the fraction, below `g / 2`, leaves that
/// multiple unchanged.
pub open spec fn secs_thousandths(ns: nat) -> nat {
    let secs = ns / 1_000_000_000;
    let sub = ns % 1_000_000_000;
    let e = binade(secs, 1);
    if e <= 52 {
        let k = (52 - e) as nat;
        let d = if sub == 0 {
            secs * pow2(k)
        } else {
            let fk = (83 - binade(sub * pow2(31), 1_000_000_000)) as nat;
            let fm = div_round_half_even(sub * pow2(fk), 1_000_000_000);
            div_round_half_even(secs * pow2(fk) + fm, pow2((fk - k) as nat))
        };
        div_round_half_even(d * 1000, pow2(k))
    } else {
        let g = pow2((e - 52) as nat);
        div_round_half_even(secs, g) * g * 1000
    }
}

/// A duration of `ns` nanoseconds as the benchmark shows it: whole
/// microseconds below one millisecond ("850µs"), milliseconds with two
/// decimals below one second ("12.35ms"), seconds with three decimals
/// otherwise ("1.500s").
pub open spec fn fmt_dur_spec(ns: nat) -> Seq<char> {
    let us = ns / 1000;
    if us < 1000 {
        decimal(us) + seq!['µ', 's']
    } else if us < 1_000_000 {
        let h = ms_hundredths(us);
        decimal(h / 100) + seq!['.'] + fixed_digits(h % 100, 2) + seq!['m', 's']
    } else {
        let t = secs_thousandths(ns);
        decimal(t / 1000) + seq!['.'] + fixed_digits(t % 1000, 3) + seq!['s']
    }
}

fn ms_hundredths_exec(us: u128) -> (h: u128)
    requires
        1000 <= us < 1_000_000,
    ensures
        h == ms_hundredths(us as nat),
{
    let e = binade_exec(us, 1000);
    proof {
        lemma_binade(us as nat, 1000);
        lemma_pow2_facts();
        if e >= 10 {
            lemma_pow2_le(10, e as nat);
        }
    }
    let k = 52 - e;
    let p = pow2_exec(k);
    proof {
        lemma_pow2_le(k as nat, 52);
        assert(us * p <= 1_000_000 * 0x10_0000_0000_0000) by (nonlinear_arith)
            requires
                us < 1_000_000,
                p <= 0x10_0000_0000_0000,
        ;
    }
    let m = div_round_half_even_exec(us * p, 1000);
    assert(m <= us * p / 1000 + 1);
    let h = div_round_half_even_exec(m * 100, p);
    h
}

fn secs_thousandths_exec(ns: u128) -> (t: u128)
    requires
        ns >= 1_000_000_000,
    ensures
        t == secs_thousandths(ns as nat),
{
    let secs = ns / 1_000_000_000;
    let sub = ns % 1_000_000_000;
    let e = binade_exec(secs, 1);
    proof {
        lemma_binade(secs as nat, 1);
        lemma_pow2_facts();
        assert(secs < 0x8_0000_0000_0000_0000_0000_0000);
        if e >= 99 {
            lemma_pow2_le(99, e as nat);
        }
    }
    if e <= 52 {
        let k = 52 - e;
        let p = pow2_exec(k);
        proof {
            lemma_pow2_adds((e + 1) as nat, k as nat);
            lemma_pow2_facts();
            lemma2_to64();
            lemma_pow2_unfold(53);
            assert(secs * p < pow2((e + 1) as nat) * p) by (nonlinear_arith)
                requires
                    secs < pow2((e + 1) as nat),
                    p > 0,
            ;
        }
        let base = secs * p;
        let d: u128 = if sub == 0 {
            base
        } else {
            proof {
                assert(sub * 0x8000_0000 >= 1_000_000_000);
            }
            let b = binade_exec(sub * 0x8000_0000, 1_000_000_000);
            proof {
                lemma_binade((sub * 0x8000_0000) as nat, 1_000_000_000);
                if b >= 31 {
                    lemma_pow2_le(31, b as nat);
                }
            }
            let fk = 83 - b;
            let pf = pow2_exec(fk);
            proof {
                lemma_pow2_le(fk as nat, 83);
                assert(sub * pf <= 1_000_000_000 * 0x8_0000_0000_0000_0000_0000) by (nonlinear_arith)
                    requires
                        sub < 1_000_000_000,
                        pf <= 0x8_0000_0000_0000_0000_0000,
                ;
            }
            let fm = div_round_half_even_exec(sub * pf, 1_000_000_000);
            assert(fm <= sub * pf / 1_000_000_000 + 1);
            assert(fm <= 0x8_0000_0000_0000_0000_0000 + 1);
            let sh = fk - k;
            let ps = pow2_exec(sh);
            proof {
                lemma_pow2_adds(k as nat, sh as nat);
                assert(secs * pf == base * ps) by (nonlinear_arith)
                    requires
                        pf == p * ps,
                        base == secs * p,
                ;
            }
            div_round_half_even_offset(base, fm, ps)
        };
        proof {
            assert(d <= 0x20_0000_0000_0000 + 0x8_0000_0000_0000_0000_0000 + 2);
        }
        div_round_half_even_exec(d * 1000, p)
    } else {
        let g = pow2_exec(e - 52);
        proof {
            lemma_pow2_pos((e - 52) as nat);
            lemma_pow2_le((e - 52) as nat, 99);
        }
        let r = div_round_half_even_exec(secs, g);
        proof {
            assert(r * g <= secs + g) by (nonlinear_arith)
                requires
                    r <= secs / g + 1,
                    g > 0,
            ;
        }
        r * g * 1000
    }
}

/// Formats a duration given in nanoseconds (see `fmt_dur_spec`).
pub fn fmt_dur(duration_ns: u128) -> (r: String)
    ensures
        r@ == fmt_dur_spec(duration_ns as nat),
{
    let us = duration_ns / 1000;
    let mut s = String::new();
    if us < 1000 {
        push_decimal(&mut s, us);
        push_char(&mut s, 'µ');
        push_char(&mut s, 's');
    } else if us < 1_000_000 {
        let h = ms_hundredths_exec(us);
        push_decimal(&mut s, h / 100);
        push_char(&mut s, '.');
        push_fixed_digits(&mut s, h % 100, 2);
        push_char(&mut s, 'm');
        push_char(&mut s, 's');
    } else {
        let t = secs_thousandths_exec(duration_ns);
        push_decimal(&mut s, t / 1000);
        push_char(&mut s, '.');
        push_fixed_digits(&mut s, t % 1000, 3);
        push_char(&mut s, 's');
    }
    s
}

} // verus!

//! Rounding to `f64` stated in integer terms.
//!
//! A positive `f64` of binary exponent `e` is a multiple of `2^(e-52)` below
//! `2^(e+1)`; an arithmetic result, or an integer converted with `as f64`, is
//! rounded to the nearest such multiple, ties going to an even multiple.
//! The functions here describe those roundings on natural numbers.
use vstd::prelude::*;
use vstd::arithmetic::power2::{
    lemma2_to64, lemma_pow2_adds, lemma_pow2_strictly_increases, lemma_pow2_unfold, pow2,
};

verus! {

/// `n / d` rounded to the nearest integer, halves going to the even neighbour.
pub open spec fn div_round_half_even(n: nat, d: nat) -> nat
    recommends
        d > 0,
{
    let q = n / d;
    let r = n % d;
    if 2 * r < d {
        q
    } else if 2 * r > d {
        q + 1
    } else if q % 2 == 0 {
        q
    } else {
        q + 1
    }
}

/// The binary exponent of `num / den`: the largest `e` with
/// `den * 2^e <= num` (for `num >= den > 0`).
pub open spec fn binade(num: nat, den: nat) -> nat
    decreases num - den,
{
    if den == 0 || num < 2 * den {
        0
    } else {
        1 + binade(num, 2 * den)
    }
}

pub proof fn lemma_binade(num: nat, den: nat)
    requires
        0 < den <= num,
    ensures
        den * pow2(binade(num, den)) <= num < den * pow2(binade(num, den) + 1),
    decreases num - den,
{
    let b = binade(num, den);
    lemma_pow2_unfold(b + 1);
    if num < 2 * den {
        lemma_pow2_unfold(1);
        assert(pow2(0) == 1) by {
            lemma2_to64();
        }
        assert(den * pow2(0) == den && den * pow2(1) == 2 * den) by (nonlinear_arith)
            requires
                pow2(0) == 1,
                pow2(1) == 2 * pow2(0),
        ;
    } else {
        let b1 = binade(num, 2 * den);
        lemma_binade(num, 2 * den);
        lemma_pow2_unfold(b1 + 1);
        lemma_pow2_unfold(b1 + 2);
        assert(2 * den * pow2(b1) == den * pow2(b1 + 1)) by (nonlinear_arith)
            requires
                pow2(b1 + 1) == 2 * pow2(b1),
        ;
        assert(2 * den * pow2(b1 + 1) == den * pow2(b1 + 2)) by (nonlinear_arith)
            requires
                pow2(b1 + 2) == 2 * pow2(b1 + 1),
        ;
    }
}

/// Powers of two that bound the values below.
pub proof fn lemma_pow2_facts()
    ensures
        pow2(0) == 1,
        pow2(10) == 1024,
        pow2(31) == 0x8000_0000,
        pow2(52) == 0x10_0000_0000_0000,
        pow2(83) == 0x8_0000_0000_0000_0000_0000,
        pow2(99) == 0x8_0000_0000_0000_0000_0000_0000,
        pow2(100) == 0x10_0000_0000_0000_0000_0000_0000,
{
    lemma2_to64();
    lemma_pow2_adds(32, 20);
    lemma_pow2_adds(64, 19);
    lemma_pow2_adds(32, 3);
    lemma_pow2_adds(64, 35);
    lemma_pow2_adds(64, 36);
    lemma_pow2_adds(32, 4);
}

pub proof fn lemma_pow2_le(a: nat, b: nat)
    requires
        a <= b,
    ensures
        pow2(a) <= pow2(b),
{
    if a < b {
        lemma_pow2_strictly_increases(a, b);
    }
}

pub fn pow2_exec(e: u128) -> (r: u128)
    requires
        e <= 120,
    ensures
        r == pow2(e as nat),
        r >= 1,
{
    proof {
        lemma_pow2_facts();
        lemma_pow2_more();
    }
    let mut r: u128 = 1;
    let mut i: u128 = 0;
    while i < e
        invariant
            i <= e <= 120,
            r == pow2(i as nat),
            r >= 1,
            pow2(120) == 0x100_0000_0000_0000_0000_0000_0000_0000,
        decreases e - i,
    {
        proof {
            lemma_pow2_unfold((i + 1) as nat);
            lemma_pow2_le((i + 1) as nat, 120);
        }
        r = r * 2;
        i = i + 1;
    }
    r
}

pub fn binade_exec(num: u128, den: u128) -> (b: u128)
    requires
        0 < den <= num,
    ensures
        b == binade(num as nat, den as nat),
{
    let mut d: u128 = den;
    let mut b: u128 = 0;
    proof {
        lemma_pow2_facts();
    }
    while d <= num / 2
        invariant
            0 < d <= num,
            b < d,
            binade(num as nat, den as nat) == b + binade(num as nat, d as nat),
        decreases num - d,
    {
        d = d * 2;
        b = b + 1;
    }
    b
}

pub fn div_round_half_even_exec(n: u128, d: u128) -> (r: u128)
    requires
        d >= 1,
    ensures
        r == div_round_half_even(n as nat, d as nat),
{
    let q = n / d;
    let rem = n % d;
    if rem < d - rem {
        q
    } else if rem > d - rem {
        assert(q * 2 <= n) by (nonlinear_arith)
            requires
                q == n / d,
                d >= 2,
        ;
        q + 1
    } else if q % 2 == 0 {
        q
    } else {
        assert(q * 2 <= n) by (nonlinear_arith)
            requires
                q == n / d,
                d >= 2,
        ;
        q + 1
    }
}

/// `div_round_half_even(base * p + x, p)`, computed without forming `base * p`.
pub fn div_round_half_even_offset(base: u128, x: u128, p: u128) -> (r: u128)
    requires
        p >= 1,
        base + x + 1 <= u128::MAX,
    ensures
        r == div_round_half_even((base * p + x) as nat, p as nat),
        r <= base + x + 1,
{
    let q = x / p;
    let rem = x % p;
    proof {
        vstd::arithmetic::div_mod::lemma_hoist_over_denominator(x as int, base as int, p as nat);
        vstd::arithmetic::div_mod::lemma_mod_multiples_vanish(base as int, x as int, p as int);
        assert(base * p == p * base) by (nonlinear_arith);
        assert(q <= x) by (nonlinear_arith)
            requires
                q == x / p,
                p >= 1,
        ;
    }
    let total = base + q;
    if rem < p - rem {
        total
    } else if rem > p - rem {
        total + 1
    } else if total % 2 == 0 {
        total
    } else {
        total + 1
    }
}

/// Further powers of two.
pub proof fn lemma_pow2_more()
    ensures
        pow2(53) == 0x20_0000_0000_0000,
        pow2(54) == 0x40_0000_0000_0000,
        pow2(56) == 0x100_0000_0000_0000,
        pow2(106) == 0x400_0000_0000_0000_0000_0000_0000,
        pow2(120) == 0x100_0000_0000_0000_0000_0000_0000_0000,
        pow2(128) == 0x1_0000_0000_0000_0000_0000_0000_0000_0000,
{
    lemma_pow2_adds(64, 56);
    lemma2_to64();
    lemma_pow2_adds(32, 21);
    lemma_pow2_adds(32, 22);
    lemma_pow2_adds(32, 24);
    lemma_pow2_adds(64, 42);
    lemma_pow2_adds(32, 10);
    lemma_pow2_adds(64, 64);
}

/// Rounding to the nearest multiple keeps the order of its arguments.
pub proof fn lemma_div_round_half_even_monotone(n1: nat, n2: nat, d: nat)
    requires
        d > 0,
        n1 <= n2,
    ensures
        div_round_half_even(n1, d) <= div_round_half_even(n2, d),
{
    let q1 = n1 / d;
    let q2 = n2 / d;
    vstd::arithmetic::div_mod::lemma_div_is_ordered(n1 as int, n2 as int, d as int);
    if q1 == q2 {
        vstd::arithmetic::div_mod::lemma_fundamental_div_mod(n1 as int, d as int);
        vstd::arithmetic::div_mod::lemma_fundamental_div_mod(n2 as int, d as int);
        let r1 = n1 % d;
        let r2 = n2 % d;
        let t = d * q1;
        assert(n1 == t + r1);
        assert(n2 == t + r2);
        assert(r1 <= r2);
    }
}

/// The power of two by which `x as f64` is a multiple: 0 for integers below
/// `2^53`, which convert exactly, else the binary exponent of `x` minus 52.
pub open spec fn f64_shift(x: nat) -> nat {
    let e = binade(x, 1);
    if e <= 52 {
        0
    } else {
        (e - 52) as nat
    }
}

/// `x as f64` for an integer `x >= 1` is `f64_significand(x) * 2^f64_shift(x)`:
/// `x` rounded to the nearest multiple of `2^f64_shift(x)`, ties to even.
pub open spec fn f64_significand(x: nat) -> nat {
    div_round_half_even(x, pow2(f64_shift(x)))
}

/// The significand and the shift of `x as f64` (see `f64_significand`).
pub fn to_f64_exec(x: u128) -> (r: (u128, u128))
    requires
        x >= 1,
    ensures
        r.0 == f64_significand(x as nat),
        r.1 == f64_shift(x as nat),
        1 <= r.0 <= 0x20_0000_0000_0000,
        r.1 <= 75,
        r.1 > 0 ==> r.0 >= 0x10_0000_0000_0000,
{
    let e = binade_exec(x, 1);
    proof {
        lemma_binade(x as nat, 1);
        lemma_pow2_facts();
        lemma_pow2_more();
        if e >= 128 {
            lemma_pow2_le(128, e as nat);
        }
    }
    if e <= 52 {
        proof {
            lemma_pow2_le((e + 1) as nat, 53);
        }
        let m = div_round_half_even_exec(x, 1);
        (m, 0)
    } else {
        let sh = e - 52;
        let g = pow2_exec(sh);
        proof {
            lemma_pow2_adds(52, sh as nat);
            lemma_pow2_adds(53, sh as nat);
            vstd::arithmetic::div_mod::lemma_fundamental_div_mod(x as int, g as int);
            let q = x / g;
            let r = x % g;
            assert(0x10_0000_0000_0000 <= q < 0x20_0000_0000_0000) by (nonlinear_arith)
                requires
                    x == g * q + r,
                    0 <= r < g,
                    0x10_0000_0000_0000 * g <= x,
                    x < 0x20_0000_0000_0000 * g,
            ;
        }
        let m = div_round_half_even_exec(x, g);
        (m, sh)
    }
}

} // verus!

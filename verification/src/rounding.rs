//! Exact integer account of two roundings: dividing two integers in
//! binary64 floating point (round to nearest, ties to even, 53-bit
//! significand), and printing the resulting double with a fixed number
//! of decimals (exact decimal value, ties to even).

use vstd::prelude::*;
use vstd::arithmetic::power2::{pow2, lemma_pow2_unfold, lemma2_to64, lemma2_to64_rest};
use crate::text::{decimal, zero_padded};

verus! {

pub open spec fn two_pow(n: nat) -> nat
    decreases n,
{
    if n == 0 { 1 } else { 2 * two_pow((n - 1) as nat) }
}

pub open spec fn ten_pow(n: nat) -> nat
    decreases n,
{
    if n == 0 { 1 } else { 10 * ten_pow((n - 1) as nat) }
}

/// `num / den` rounded to the nearest integer, ties to the even one.
pub open spec fn div_round_even(num: nat, den: nat) -> nat {
    let q = num / den;
    let r = num % den;
    if 2 * r > den || (2 * r == den && q % 2 == 1) {
        q + 1
    } else {
        q
    }
}

/// The position of the highest set bit of `m` (0 for `m < 2`).
pub open spec fn floor_log2(m: nat) -> nat
    decreases m,
{
    if m < 2 { 0 } else { 1 + floor_log2(m / 2) }
}

/// For `p / q >= 1`: the shift `s` for which `p / q * 2^s` lies in `[2^52, 2^53)`.
pub open spec fn sig_shift(p: nat, q: nat) -> nat {
    (52 - floor_log2(p / q)) as nat
}

/// The double nearest to `p / q` is `double_sig(p, q) / 2^sig_shift(p, q)`.
pub open spec fn double_sig(p: nat, q: nat) -> nat {
    div_round_even(p * two_pow(sig_shift(p, q)), q)
}

/// The double nearest to `p / q`, printed with `d` decimals, counted in
/// units of `10^-d`.
pub open spec fn decimal_units(p: nat, q: nat, d: nat) -> nat {
    div_round_even(double_sig(p, q) * ten_pow(d), two_pow(sig_shift(p, q)))
}

/// The integer value of the double nearest to `n` (`n as f64`).
pub open spec fn nearest_double_int(n: nat) -> nat {
    if n < two_pow(53) {
        n
    } else {
        let t = (floor_log2(n) - 52) as nat;
        div_round_even(n, two_pow(t)) * two_pow(t)
    }
}

/// `units` in units of `10^-d`, printed with `d` decimals.
pub open spec fn fixed_text(units: nat, d: nat) -> Seq<char> {
    decimal(units / ten_pow(d)) + seq!['.'] + zero_padded(units % ten_pow(d), d)
}

pub proof fn lemma_two_pow_is_pow2(n: nat)
    ensures
        two_pow(n) == pow2(n),
    decreases n,
{
    if n > 0 {
        lemma_two_pow_is_pow2((n - 1) as nat);
        lemma_pow2_unfold(n);
    } else {
        lemma2_to64();
    }
}

/// Concrete values used for bounds.
pub proof fn lemma_two_pow_values()
    ensures
        two_pow(12) == 4096,
        two_pow(53) == 9007199254740992,
        two_pow(64) == 18446744073709551616,
{
    lemma_two_pow_is_pow2(12);
    lemma_two_pow_is_pow2(53);
    lemma_two_pow_is_pow2(64);
    lemma2_to64();
    lemma2_to64_rest();
}

pub proof fn lemma_two_pow_pos(n: nat)
    ensures
        two_pow(n) >= 1,
    decreases n,
{
    if n > 0 {
        lemma_two_pow_pos((n - 1) as nat);
    }
}

pub proof fn lemma_two_pow_add(a: nat, b: nat)
    ensures
        two_pow(a + b) == two_pow(a) * two_pow(b),
    decreases a,
{
    if a > 0 {
        lemma_two_pow_add((a - 1) as nat, b);
        assert(two_pow(a) == 2 * two_pow((a - 1) as nat));
        assert(two_pow(a + b) == 2 * two_pow((a - 1 + b) as nat));
        let x = two_pow((a - 1) as nat);
        let y = two_pow(b);
        assert(2 * (x * y) == (2 * x) * y) by (nonlinear_arith);
    } else {
        assert(two_pow(0) == 1);
    }
}

pub proof fn lemma_two_pow_mono(a: nat, b: nat)
    requires
        a <= b,
    ensures
        two_pow(a) <= two_pow(b),
    decreases b,
{
    if a < b {
        lemma_two_pow_mono(a, (b - 1) as nat);
        lemma_two_pow_pos((b - 1) as nat);
    }
}

/// `2^floor_log2(m) <= m < 2^(floor_log2(m) + 1)` for `m >= 1`.
pub proof fn lemma_floor_log2_bounds(m: nat)
    requires
        m >= 1,
    ensures
        two_pow(floor_log2(m)) <= m,
        m < two_pow(floor_log2(m) + 1),
    decreases m,
{
    if m >= 2 {
        let h = m / 2;
        lemma_floor_log2_bounds(h);
        let f = floor_log2(h);
        assert(floor_log2(m) == f + 1);
        assert(two_pow(f + 1) == 2 * two_pow(f));
        assert(two_pow(f + 2) == 2 * two_pow(f + 1));
    } else {
        assert(two_pow(1) == 2 * two_pow(0));
    }
}

/// `floor_log2(m) < k` when `1 <= m < 2^k`.
pub proof fn lemma_floor_log2_below(m: nat, k: nat)
    requires
        1 <= m < two_pow(k),
    ensures
        floor_log2(m) < k,
{
    lemma_floor_log2_bounds(m);
    if floor_log2(m) >= k {
        lemma_two_pow_mono(k, floor_log2(m));
    }
}

pub(crate) fn two_pow_exec(n: u32) -> (r: u128)
    requires
        n <= 64,
    ensures
        r == two_pow(n as nat),
{
    let mut r: u128 = 1;
    let mut i: u32 = 0;
    while i < n
        invariant
            i <= n,
            n <= 64,
            r == two_pow(i as nat),
        decreases n - i,
    {
        proof {
            lemma_two_pow_mono((i + 1) as nat, 64);
            lemma_two_pow_values();
        }
        r = r * 2;
        i = i + 1;
    }
    r
}

pub(crate) fn ten_pow_exec(n: u32) -> (r: u128)
    requires
        n <= 3,
    ensures
        r == ten_pow(n as nat),
        1 <= r <= 1000,
{
    proof {
        reveal_with_fuel(ten_pow, 4);
    }
    if n == 0 {
        1
    } else if n == 1 {
        10
    } else if n == 2 {
        100
    } else {
        1000
    }
}

pub(crate) fn div_round_even_exec(num: u128, den: u128) -> (r: u128)
    requires
        den > 0,
        num < u128::MAX,
    ensures
        r == div_round_even(num as nat, den as nat),
        r <= num / den + 1,
{
    let q = num / den;
    let rem = num % den;
    let half_up = rem > den - rem || (rem == den - rem && q % 2 == 1);
    if half_up {
        proof {
            assert(q <= num) by (nonlinear_arith)
                requires
                    q == num / den,
                    den > 0,
            ;
        }
        q + 1
    } else {
        q
    }
}

pub(crate) fn floor_log2_exec(m: u64) -> (e: u32)
    ensures
        e == floor_log2(m as nat),
        e < 64,
{
    proof {
        lemma_two_pow_values();
        if m >= 1 {
            lemma_floor_log2_below(m as nat, 64);
        }
    }
    let mut k = m;
    let mut e: u32 = 0;
    while k >= 2
        invariant
            floor_log2(m as nat) == e + floor_log2(k as nat),
            e + floor_log2(k as nat) < 64,
        decreases k,
    {
        k = k / 2;
        e = e + 1;
    }
    e
}

/// The double nearest to `p / q`, printed with `d` decimals, in units of `10^-d`.
pub(crate) fn decimal_units_exec(p: u128, q: u128, d: u32) -> (units: u64)
    requires
        1 <= q <= 1_000_000_000,
        q <= p,
        p / q < two_pow(53),
        d <= 3,
    ensures
        units == decimal_units(p as nat, q as nat, d as nat),
{
    let m = p / q;
    proof {
        lemma_two_pow_values();
    }
    let e = floor_log2_exec(m as u64);
    proof {
        assert(m >= 1) by (nonlinear_arith)
            requires
                m == p / q,
                q <= p,
                q >= 1,
        ;
        lemma_floor_log2_below(m as nat, 53);
        lemma_floor_log2_bounds(m as nat);
    }
    let s: u32 = 52 - e;
    let pw = two_pow_exec(s);
    proof {
        lemma_two_pow_pos(s as nat);
        lemma_two_pow_add((e + 1) as nat, s as nat);
        assert(((e + 1) + s) as nat == 53);
        let t = two_pow((e + 1) as nat);
        assert(p < q * t) by (nonlinear_arith)
            requires
                m == p / q,
                q >= 1,
                m < t,
        ;
        assert(p * pw < q * two_pow(53)) by (nonlinear_arith)
            requires
                p < q * t,
                pw >= 1,
                two_pow(53) == t * pw,
        ;
        assert(q * two_pow(53) <= 1_000_000_000 * 9007199254740992) by (nonlinear_arith)
            requires
                q <= 1_000_000_000,
                two_pow(53) == 9007199254740992,
        ;
    }
    let num = p * pw;
    let k = div_round_even_exec(num, q);
    proof {
        assert(num / q < two_pow(53)) by (nonlinear_arith)
            requires
                num < q * two_pow(53),
                q >= 1,
        ;
    }
    let tp = ten_pow_exec(d);
    proof {
        assert(k * tp <= 9007199254740992 * 1000) by (nonlinear_arith)
            requires
                k <= 9007199254740992,
                tp <= 1000,
        ;
    }
    let num2 = k * tp;
    let units = div_round_even_exec(num2, pw);
    proof {
        assert(num2 / pw <= num2) by (nonlinear_arith)
            requires
                pw >= 1,
        ;
    }
    units as u64
}

/// `n as f64`, as an integer.
pub(crate) fn nearest_double_int_exec(n: u64) -> (a: u128)
    ensures
        a == nearest_double_int(n as nat),
        a <= n + 2048,
        n <= a + 2048,
{
    proof {
        lemma_two_pow_values();
    }
    if (n as u128) < 9007199254740992u128 {
        return n as u128;
    }
    let e = floor_log2_exec(n);
    proof {
        lemma_floor_log2_bounds(n as nat);
        lemma_floor_log2_below(n as nat, 64);
        if e < 53 {
            lemma_two_pow_mono((e + 1) as nat, 53);
        }
    }
    let t: u32 = e - 52;
    let pt = two_pow_exec(t);
    proof {
        lemma_two_pow_mono(t as nat, 11);
        lemma_two_pow_pos(t as nat);
        assert(two_pow(11) == 2048) by {
            lemma_two_pow_is_pow2(11);
            lemma2_to64();
        }
    }
    let k = div_round_even_exec(n as u128, pt);
    proof {
        let qq = (n as nat) / (pt as nat);
        assert(qq * pt <= n) by (nonlinear_arith)
            requires
                qq == (n as nat) / (pt as nat),
                pt >= 1,
        ;
        assert(n < qq * pt + pt) by (nonlinear_arith)
            requires
                qq == (n as nat) / (pt as nat),
                pt >= 1,
        ;
        assert(k >= qq);
        assert(k * pt <= qq * pt + pt) by (nonlinear_arith)
            requires
                k <= qq + 1,
                pt >= 1,
        ;
        assert(k * pt >= qq * pt) by (nonlinear_arith)
            requires
                k >= qq,
                pt >= 1,
        ;
    }
    k * pt
}

} // verus!

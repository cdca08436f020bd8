//! Integer helpers: powers of ten and division that rounds toward either
//! infinity, with the facts about them that the rest of the crate relies on.

use vstd::arithmetic::div_mod::lemma_fundamental_div_mod_converse;
use vstd::prelude::*;

verus! {

/// Ten to the power `n`.
pub open spec fn pow10(n: nat) -> int
    decreases n,
{
    if n == 0 {
        1
    } else {
        10 * pow10((n - 1) as nat)
    }
}

/// The largest integer `q` with `q * d <= x`, for positive `d`.
pub open spec fn floor_div(x: int, d: int) -> int {
    x / d
}

/// The smallest integer `q` with `x <= q * d`, for positive `d`.
pub open spec fn ceil_div(x: int, d: int) -> int {
    -((-x) / d)
}

/// Every power of ten is positive and exceeds its exponent.
pub proof fn lemma_pow10_grows(n: nat)
    ensures
        pow10(n) > n,
        pow10(n) >= 1,
    decreases n,
{
    if n > 0 {
        lemma_pow10_grows((n - 1) as nat);
    }
}

/// Powers of ten are ordered as their exponents are.
pub proof fn lemma_pow10_monotone(a: nat, b: nat)
    requires
        a <= b,
    ensures
        pow10(a) <= pow10(b),
        a < b ==> 10 * pow10(a) <= pow10(b),
    decreases b,
{
    lemma_pow10_grows(a);
    if a < b {
        lemma_pow10_monotone(a, (b - 1) as nat);
    }
}

/// The defining sandwich of `floor_div`.
pub proof fn lemma_floor_div_bounds(x: int, d: int)
    requires
        d > 0,
    ensures
        floor_div(x, d) * d <= x < floor_div(x, d) * d + d,
{
    vstd::arithmetic::div_mod::lemma_fundamental_div_mod(x, d);
    vstd::arithmetic::div_mod::lemma_mod_bound(x, d);
    assert(d * (x / d) == (x / d) * d) by (nonlinear_arith);
}

/// The defining sandwich of `ceil_div`.
pub proof fn lemma_ceil_div_bounds(x: int, d: int)
    requires
        d > 0,
    ensures
        ceil_div(x, d) * d - d < x <= ceil_div(x, d) * d,
{
    lemma_floor_div_bounds(-x, d);
    assert((-((-x) / d)) * d == -(((-x) / d) * d)) by (nonlinear_arith);
}

/// A quotient by a positive divisor is no larger in magnitude than the
/// dividend, up to the one step that rounding may add.
pub proof fn lemma_div_size(x: int, d: int, cap: int)
    requires
        d >= 1,
        -cap <= x <= cap,
    ensures
        -cap - 1 <= floor_div(x, d) <= cap,
        -cap <= ceil_div(x, d) <= cap + 1,
{
    lemma_floor_div_bounds(x, d);
    lemma_ceil_div_bounds(x, d);
    let f = floor_div(x, d);
    let c = ceil_div(x, d);
    if f > cap {
        assert(f * d > cap) by (nonlinear_arith)
            requires
                f > cap,
                cap >= 0,
                d >= 1,
        ;
    }
    if f < -cap - 1 {
        assert(f * d + d < -cap) by (nonlinear_arith)
            requires
                f + 1 < -cap,
                cap >= 0,
                d >= 1,
        ;
    }
    if c > cap + 1 {
        assert(c * d - d > cap) by (nonlinear_arith)
            requires
                c - 1 > cap,
                cap >= 0,
                d >= 1,
        ;
    }
    if c < -cap {
        assert(c * d < -cap) by (nonlinear_arith)
            requires
                c < -cap,
                cap >= 0,
                d >= 1,
        ;
    }
}

/// Computes `floor_div` for a dividend of either sign.
pub fn div_floor(x: i128, d: i128) -> (q: i128)
    requires
        d > 0,
        x > i128::MIN,
    ensures
        q == floor_div(x as int, d as int),
{
    if x >= 0 {
        x / d
    } else {
        let n: i128 = -x;
        let below: i128 = (n - 1) / d;
        proof {
            let r = (n - 1) as int % d as int;
            vstd::arithmetic::div_mod::lemma_fundamental_div_mod((n - 1) as int, d as int);
            vstd::arithmetic::div_mod::lemma_mod_bound((n - 1) as int, d as int);
            assert(x as int == (-(below as int) - 1) * (d as int) + (d as int - 1 - r))
                by (nonlinear_arith)
                requires
                    (n - 1) as int == (d as int) * (below as int) + r,
                    x as int == -(n as int),
            ;
            lemma_fundamental_div_mod_converse(
                x as int,
                d as int,
                -(below as int) - 1,
                d as int - 1 - r,
            );
        }
        -below - 1
    }
}

/// Computes `ceil_div` for a dividend of either sign.
pub fn div_ceil(x: i128, d: i128) -> (q: i128)
    requires
        d > 0,
        x > i128::MIN,
    ensures
        q == ceil_div(x as int, d as int),
{
    let f: i128 = div_floor(-x, d);
    proof {
        lemma_floor_div_bounds(-(x as int), d as int);
        assert(f as int * d as int >= -(i128::MAX as int) - d as int);
        if f == i128::MIN {
            assert(f as int * d as int <= i128::MIN as int) by (nonlinear_arith)
                requires
                    f as int == i128::MIN as int,
                    d as int >= 1,
            ;
            assert(d as int == 1);
            assert(false);
        }
    }
    -f
}

/// Ten to the power `k`, for powers that fit.
pub fn ten_to(k: u32) -> (p: i128)
    requires
        k <= 18,
    ensures
        p == pow10(k as nat),
        1 <= p <= 1_000_000_000_000_000_000,
{
    let mut p: i128 = 1;
    let mut i: u32 = 0;
    proof {
        reveal_with_fuel(pow10, 20);
        assert(pow10(18) == 1_000_000_000_000_000_000);
    }
    while i < k
        invariant
            i <= k <= 18,
            p == pow10(i as nat),
            pow10(18) == 1_000_000_000_000_000_000,
            1 <= p <= 1_000_000_000_000_000_000,
        decreases k - i,
    {
        proof {
            lemma_pow10_monotone((i + 1) as nat, 18);
        }
        p = p * 10;
        i = i + 1;
    }
    p
}

} // verus!

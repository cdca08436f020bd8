//! How many decimal digits it takes to write a number without loss.

use crate::numeric::{lemma_pow10_grows, lemma_pow10_monotone, pow10, ten_to};
use vstd::arithmetic::div_mod::{
    lemma_fundamental_div_mod, lemma_fundamental_div_mod_converse, lemma_small_mod,
};
use vstd::prelude::*;

verus! {

/// The digit count at which the search for a precision gives up.
pub const PRECISION_CAP: u32 = 15;

/// The number `mantissa * 10^exponent`.
#[derive(Clone, Copy, Debug, PartialEq, Eq, Structural)]
pub struct Decimal {
    pub mantissa: i64,
    pub exponent: i32,
}

/// Whether `mantissa * 10^exponent`, written with `d` digits after the
/// decimal point, is written without loss: whether `mantissa * 10^(exponent + d)`
/// is a whole number.
pub open spec fn whole_at(mantissa: int, exponent: int, d: int) -> bool {
    exponent + d >= 0 || mantissa % pow10((-(exponent + d)) as nat) == 0
}

/// The least digit count from `d` on at which the number is written without
/// loss, or `PRECISION_CAP` if there is none below it.
pub open spec fn precision_from(mantissa: int, exponent: int, d: int) -> int
    decreases PRECISION_CAP - d,
{
    if d >= PRECISION_CAP {
        PRECISION_CAP as int
    } else if whole_at(mantissa, exponent, d) {
        d
    } else {
        precision_from(mantissa, exponent, d + 1)
    }
}

impl Decimal {
    /// The least number of digits after the decimal point with which the
    /// number is written without loss, capped at `PRECISION_CAP`.
    pub open spec fn precision(self) -> int {
        precision_from(self.mantissa as int, self.exponent as int, 0)
    }
}

/// The first digit count that works, with none before it working, is the
/// precision.
pub proof fn lemma_precision_found(mantissa: int, exponent: int, from: int, d: int)
    requires
        0 <= from <= d <= PRECISION_CAP,
        forall|x: int| from <= x < d ==> !#[trigger] whole_at(mantissa, exponent, x),
        d == PRECISION_CAP || whole_at(mantissa, exponent, d),
    ensures
        precision_from(mantissa, exponent, from) == d,
    decreases d - from,
{
    if from < d {
        assert(!whole_at(mantissa, exponent, from));
        lemma_precision_found(mantissa, exponent, from + 1, d);
    }
}

/// What the precision is: no smaller digit count writes the number without
/// loss, and the precision itself does unless it is the cap.
pub proof fn lemma_precision_least(mantissa: int, exponent: int, from: int)
    requires
        0 <= from <= PRECISION_CAP,
    ensures
        from <= precision_from(mantissa, exponent, from) <= PRECISION_CAP,
        forall|x: int|
            from <= x < precision_from(mantissa, exponent, from) ==> !#[trigger] whole_at(
                mantissa,
                exponent,
                x,
            ),
        precision_from(mantissa, exponent, from) < PRECISION_CAP ==> whole_at(
            mantissa,
            exponent,
            precision_from(mantissa, exponent, from),
        ),
    decreases PRECISION_CAP - from,
{
    if from < PRECISION_CAP && !whole_at(mantissa, exponent, from) {
        lemma_precision_least(mantissa, exponent, from + 1);
    }
}

/// A number and its negative are multiples of the same numbers.
pub proof fn lemma_multiple_sign(m: int, p: int)
    requires
        p > 0,
        m % p == 0,
    ensures
        (-m) % p == 0,
{
    lemma_fundamental_div_mod(m, p);
    let q = m / p;
    assert(-m == (-q) * p + 0) by (nonlinear_arith)
        requires
            m == p * q,
    ;
    lemma_fundamental_div_mod_converse(-m, p, -q, 0);
}

/// Finds the least number of digits after the decimal point with which
/// `value` is written without loss, trying 0, 1, 2, .. in turn and giving up
/// at `PRECISION_CAP`.
pub fn get_precision(value: Decimal) -> (digits: u32)
    ensures
        digits == value.precision(),
        digits <= PRECISION_CAP,
        forall|d: int|
            0 <= d < digits ==> !#[trigger] whole_at(
                value.mantissa as int,
                value.exponent as int,
                d,
            ),
        digits < PRECISION_CAP ==> whole_at(
            value.mantissa as int,
            value.exponent as int,
            digits as int,
        ),
{
    let m: i64 = value.mantissa;
    let e: i32 = value.exponent;
    if m == 0 || e >= 0 {
        proof {
            if e < 0 {
                lemma_pow10_grows((-e) as nat);
            }
            lemma_precision_found(m as int, e as int, 0, 0);
        }
        return 0;
    }
    let need: i64 = -(e as i64);
    let size: i128 = if m < 0 {
        -(m as i128)
    } else {
        m as i128
    };
    let mut d: u32 = 0;
    proof {
        reveal_with_fuel(pow10, 20);
        assert(pow10(19) == 10_000_000_000_000_000_000);
    }
    while d < PRECISION_CAP
        invariant
            d <= PRECISION_CAP,
            m == value.mantissa,
            e == value.exponent,
            e < 0,
            need == -e,
            m != 0,
            size == (if m < 0 {
                -m
            } else {
                m as int
            }),
            pow10(19) == 10_000_000_000_000_000_000,
            forall|x: int| 0 <= x < d ==> !#[trigger] whole_at(m as int, e as int, x),
        decreases PRECISION_CAP - d,
    {
        let k: i64 = need - (d as i64);
        if k <= 0 {
            proof {
                lemma_precision_found(m as int, e as int, 0, d as int);
            }
            return d;
        }
        if k <= 18 {
            let p: i128 = ten_to(k as u32);
            if size % p == 0 {
                proof {
                    if m < 0 {
                        lemma_multiple_sign(size as int, p as int);
                    }
                    lemma_precision_found(m as int, e as int, 0, d as int);
                }
                return d;
            }
            proof {
                if m < 0 && (m as int) % (p as int) == 0 {
                    lemma_multiple_sign(m as int, p as int);
                }
            }
        } else {
            proof {
                let p = pow10(k as nat);
                lemma_pow10_monotone(19, k as nat);
                lemma_small_mod(size as nat, p as nat);
                if (m as int) % p == 0 {
                    if m < 0 {
                        lemma_multiple_sign(m as int, p);
                    }
                }
            }
        }
        d = d + 1;
    }
    proof {
        lemma_precision_found(m as int, e as int, 0, PRECISION_CAP as int);
    }
    PRECISION_CAP
}

/// Finds the precision that writes every one of `values` without loss: the
/// greatest of their precisions, and 1 for an empty collection.
pub fn get_precision_of_set(values: &Vec<Decimal>) -> (digits: u32)
    ensures
        values@.len() == 0 ==> digits == 1,
        values@.len() > 0 ==> exists|i: int|
            0 <= i < values@.len() && digits == (#[trigger] values@[i]).precision(),
        forall|i: int|
            0 <= i < values@.len() ==> (#[trigger] values@[i]).precision() <= digits,
{
    if values.len() == 0 {
        return 1;
    }
    let mut digits: u32 = get_precision(values[0]);
    let mut n: usize = 1;
    while n < values.len()
        invariant
            1 <= n <= values@.len(),
            exists|i: int| 0 <= i < n && digits == (#[trigger] values@[i]).precision(),
            forall|i: int| 0 <= i < n ==> (#[trigger] values@[i]).precision() <= digits,
        decreases values@.len() - n,
    {
        let p: u32 = get_precision(values[n]);
        if p > digits {
            digits = p;
        }
        n = n + 1;
    }
    digits
}

} // verus!

//! Binary floating point on integers.
//!
//! A quantity is held as a count of units of 2^-52, so that every double
//! precision number between 1 and 2^64 is a whole count. Rounding to the 53
//! significant bits of a double, and rounding to decimal digits for display,
//! are then exact integer computations.

use vstd::prelude::*;

verus! {

/// The count that stands for 1.
pub const ONE: u128 = 0x10_0000_0000_0000;

/// The least count with more than 53 significant bits.
pub const MANTISSA_END: u128 = 0x20_0000_0000_0000;

/// Upper bound on the counts this module handles: 2^124.
pub const COUNT_END: u128 = 0x1000_0000_0000_0000_0000_0000_0000_0000;

/// Spacing of the 53-bit numbers around `x`: the power of two `u` for which
/// `x / u` has at most 53 bits while `x / (u / 2)` has more.
pub open spec fn ulp(x: nat) -> nat
    decreases x,
{
    if x < MANTISSA_END {
        1
    } else {
        2 * ulp(x / 2)
    }
}

/// `num / den` rounded to the nearest integer, a tie going to the even neighbour.
pub open spec fn round_half_even(num: nat, den: nat) -> nat {
    let q = num / den;
    let r = num % den;
    if 2 * r < den || (2 * r == den && q % 2 == 0) {
        q
    } else {
        q + 1
    }
}

/// `num / den` rounded to 53 significant bits, a tie going to the even mantissa.
pub open spec fn nearest_double(num: nat, den: nat) -> nat {
    let u = ulp(num / den);
    round_half_even(num, den * u) * u
}

/// Computes `round_half_even`.
pub fn div_round_half_even(num: u128, den: u128) -> (r: u128)
    requires
        den >= 1,
        den < COUNT_END,
        num < COUNT_END,
    ensures
        r == round_half_even(num as nat, den as nat),
        r <= num / den + 1,
{
    let q: u128 = num / den;
    let r: u128 = num % den;
    if 2 * r < den || (2 * r == den && q % 2 == 0) {
        q
    } else {
        q + 1
    }
}

/// Computes `ulp`.
pub fn spacing(x: u128) -> (u: u128)
    ensures
        u == ulp(x as nat),
        u >= 1,
        x >= MANTISSA_END ==> u * MANTISSA_END <= 2 * x,
        x < MANTISSA_END ==> u == 1,
{
    let mut u: u128 = 1;
    let mut y: u128 = x;
    while y >= MANTISSA_END
        invariant
            u >= 1,
            u * y <= x,
            ulp(x as nat) == u * ulp(y as nat),
            x < MANTISSA_END ==> u == 1 && y == x,
            x >= MANTISSA_END ==> y * 2 >= MANTISSA_END,
        decreases y,
    {
        proof {
            let y2 = y / 2;
            assert((2 * u) * y2 <= u * y) by (nonlinear_arith)
                requires
                    y2 * 2 <= y,
                    u >= 1,
            ;
            assert(u * ulp(y as nat) == (2 * u) * ulp(y2 as nat)) by (nonlinear_arith)
                requires
                    ulp(y as nat) == 2 * ulp(y2 as nat),
            ;
            assert(u * 2 <= u * y) by (nonlinear_arith)
                requires
                    y >= 2,
                    u >= 1,
            ;
        }
        y = y / 2;
        u = u * 2;
    }
    proof {
        assert(ulp(y as nat) == 1);
        assert(u * 1 == u) by (nonlinear_arith);
        if x >= MANTISSA_END {
            assert(u * MANTISSA_END <= 2 * (u * y)) by (nonlinear_arith)
                requires
                    y * 2 >= MANTISSA_END,
                    u >= 1,
            ;
        }
    }
    u
}

/// Computes `nearest_double`.
pub fn round_to_double(num: u128, den: u64) -> (r: u128)
    requires
        den >= 1,
        num < COUNT_END,
    ensures
        r == nearest_double(num as nat, den as nat),
        r <= num / (den as u128) + (num / (den as u128)) / ONE + 1,
{
    let d: u128 = den as u128;
    let q: u128 = num / d;
    let u: u128 = spacing(q);
    proof {
        assert(q * d <= num) by (nonlinear_arith)
            requires
                q == num / d,
                d >= 1,
        ;
        if q >= MANTISSA_END {
            assert(d * u <= q * d) by (nonlinear_arith)
                requires
                    u * MANTISSA_END <= 2 * q,
                    MANTISSA_END == 0x20_0000_0000_0000,
                    d >= 1,
                    u >= 1,
            ;
        } else {
            assert(d * u == d) by (nonlinear_arith)
                requires
                    u == 1,
            ;
        }
        assert(d * u >= 1) by (nonlinear_arith)
            requires
                d >= 1,
                u >= 1,
        ;
    }
    let du: u128 = d * u;
    let m: u128 = div_round_half_even(num, du);
    proof {
        assert(num / du == q / u) by (nonlinear_arith)
            requires
                q == num / d,
                du == d * u,
                d >= 1,
                u >= 1,
        ;
        assert((q / u) * u <= q) by (nonlinear_arith)
            requires
                u >= 1,
        ;
        assert(m * u <= q + u) by (nonlinear_arith)
            requires
                m <= q / u + 1,
                (q / u) * u <= q,
                u >= 1,
        ;
        assert(u <= q / ONE + 1);
    }
    m * u
}

} // verus!

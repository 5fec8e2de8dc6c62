//! Altitudes between two reports.

use crate::fixed::power_of_two;
use crate::scalar::{lemma_nearest_is_near, magnitude, nearest, one, saturated, split, Scalar, EXPONENT, SIGN};
use crate::track::{rate_in_range, MAX_RATE};
use vstd::arithmetic::div_mod::{lemma_fundamental_div_mod, lemma_fundamental_div_mod_converse};
use vstd::arithmetic::power2::{
    lemma2_to64, lemma2_to64_rest, lemma_pow2_adds, lemma_pow2_pos, lemma_pow2_strictly_increases,
    pow2,
};
use vstd::prelude::*;

verus! {

/// A minute in nanoseconds.
pub const MINUTE: u64 = 60_000_000_000;

/// The altitude `after` nanoseconds behind one of `base` feet, at a rate in feet per minute, to
/// the nearest foot.
pub open spec fn projected(base: int, rate: Scalar, after: int) -> int {
    let y = one() * MINUTE;
    if rate.is_nan() {
        0
    } else {
        saturated(nearest(base * y + rate.units() * after, y))
    }
}

/// A common factor changes nothing.
proof fn lemma_nearest_scaled(x: int, y: int, c: int)
    requires
        0 < y,
        0 < c,
    ensures
        nearest(x * c, y * c) == nearest(x, y),
{
    let u = if x < 0 {
        -x
    } else {
        x
    };
    let t = 2 * u + y;
    let q = t / (2 * y);
    let r = t % (2 * y);
    lemma_fundamental_div_mod(t, 2 * y);
    assert(x * c < 0 <==> x < 0) by (nonlinear_arith)
        requires
            0 < c,
    ;
    let v = if x < 0 {
        -2 * (x * c) + y * c
    } else {
        2 * (x * c) + y * c
    };
    assert(v == t * c) by (nonlinear_arith)
        requires
            v == (if x < 0 {
                -2 * (x * c) + y * c
            } else {
                2 * (x * c) + y * c
            }),
            t == (if x < 0 {
                -2 * x + y
            } else {
                2 * x + y
            }),
    ;
    assert(t * c == q * (2 * (y * c)) + r * c) by (nonlinear_arith)
        requires
            t == (2 * y) * q + r,
    ;
    assert(0 <= r * c < 2 * (y * c)) by (nonlinear_arith)
        requires
            0 <= r < 2 * y,
            0 < c,
    ;
    lemma_fundamental_div_mod_converse(v, 2 * (y * c), q, r * c);
}

/// An integer and a fraction, rounded: `i + r / d`, halves away from zero.
proof fn lemma_nearest_parts(i: int, r: int, d: int)
    requires
        0 < d,
        0 <= r < d,
    ensures
        i >= 0 ==> nearest(i * d + r, d) == (if 2 * r >= d {
            i + 1
        } else {
            i
        }),
        i < 0 ==> nearest(i * d + r, d) == (if 2 * r > d {
            i + 1
        } else {
            i
        }),
{
    let x = i * d + r;
    if i >= 0 {
        assert(x >= 0) by (nonlinear_arith)
            requires
                x == i * d + r,
                i >= 0,
                d > 0,
                r >= 0,
        ;
        let q = if 2 * r >= d {
            i + 1
        } else {
            i
        };
        let rest = 2 * r + d - (if 2 * r >= d {
            2 * d
        } else {
            0
        });
        assert(2 * x + d == q * (2 * d) + rest) by (nonlinear_arith)
            requires
                x == i * d + r,
                q == (if 2 * r >= d {
                    i + 1
                } else {
                    i
                }),
                rest == 2 * r + d - (if 2 * r >= d {
                    2 * d
                } else {
                    0
                }),
        ;
        lemma_fundamental_div_mod_converse(2 * x + d, 2 * d, q, rest);
    } else {
        assert(x < 0) by (nonlinear_arith)
            requires
                x == i * d + r,
                i <= -1,
                d > 0,
                r < d,
        ;
        let q = if 2 * r > d {
            -i - 1
        } else {
            -i
        };
        let rest = d - 2 * r + (if 2 * r > d {
            2 * d
        } else {
            0
        });
        assert(-2 * x + d == q * (2 * d) + rest) by (nonlinear_arith)
            requires
                x == i * d + r,
                q == (if 2 * r > d {
                    -i - 1
                } else {
                    -i
                }),
                rest == d - 2 * r + (if 2 * r > d {
                    2 * d
                } else {
                    0
                }),
        ;
        lemma_fundamental_div_mod_converse(-2 * x + d, 2 * d, q, rest);
    }
}

/// Rounding is the same on both sides of zero.
proof fn lemma_nearest_odd(x: int, y: int)
    requires
        0 < y,
    ensures
        nearest(-x, y) == -nearest(x, y),
{
    if x == 0 {
        lemma_fundamental_div_mod_converse(y, 2 * y, 0, y);
    }
}

/// The whole feet of a climb, what is left of the next one, and the denominator of that. The
/// magnitude of the rate is `m * 2^e` units, and `k` is how far that is below one.
fn climb(m: u64, k: u64, after: u64) -> (r: (u64, bool, bool))
    requires
        m < 2 * EXPONENT,
        0 < k,
        after <= MINUTE,
        m <= MAX_RATE * pow2(k as nat),
    ensures
        ({
            let n = m * after;
            let d = MINUTE * pow2(k as nat);
            &&& r.0 == n / d
            &&& r.0 <= MAX_RATE
            &&& r.1 == (2 * (n % d) >= d)
            &&& r.2 == (2 * (n % d) > d)
        }),
{
    assert(0 <= m * after <= 2 * EXPONENT * MINUTE) by (nonlinear_arith)
        requires
            m < 2 * EXPONENT,
            after <= MINUTE,
    ;
    let n: u128 = (m as u128) * (after as u128);
    let ghost p = pow2(k as nat) as int;
    let ghost den = MINUTE * p;
    proof {
        lemma_pow2_pos(k as nat);
        assert(n < 0x200_0000_0000_0000_0000_0000) by (nonlinear_arith)
            requires
                n == m * after,
                m < 2 * EXPONENT,
                after <= MINUTE,
                EXPONENT == 0x10_0000_0000_0000,
                MINUTE == 60_000_000_000,
        ;
        assert(den > 0) by (nonlinear_arith)
            requires
                den == MINUTE * p,
                p > 0,
                MINUTE == 60_000_000_000,
        ;
        assert(n <= MAX_RATE * den) by (nonlinear_arith)
            requires
                n == m * after,
                0 <= m <= MAX_RATE * p,
                0 <= after <= MINUTE,
                den == MINUTE * p,
                p > 0,
        ;
    }
    if k > 80 {
        proof {
            lemma_pow2_strictly_increases(80, k as nat);
            lemma_pow2_adds(40, 40);
            lemma2_to64();
            lemma2_to64_rest();
            assert(2 * n < den) by (nonlinear_arith)
                requires
                    n < 0x200_0000_0000_0000_0000_0000,
                    den == MINUTE * p,
                    p >= 0x1_0000_0000_0000_0000_0000,
                    MINUTE == 60_000_000_000,
            ;
            lemma_fundamental_div_mod_converse(n as int, den, 0, n as int);
        }
        return (0, false, false);
    }
    let two: u128 = power_of_two(k);
    proof {
        lemma_pow2_adds(40, 40);
        lemma2_to64();
        lemma2_to64_rest();
        if k < 80 {
            lemma_pow2_strictly_increases(k as nat, 80);
        }
    }
    let d: u128 = two * 60_000_000_000;
    assert(d == den) by (nonlinear_arith)
        requires
            d == two * 60_000_000_000,
            den == MINUTE * p,
            two == p,
            MINUTE == 60_000_000_000,
    ;
    let q: u128 = n / d;
    let rest: u128 = n % d;
    proof {
        lemma_fundamental_div_mod(n as int, den);
        assert(q <= MAX_RATE) by (nonlinear_arith)
            requires
                n == den * q + rest,
                rest >= 0,
                n <= MAX_RATE * den,
                den > 0,
        ;
    }
    (q as u64, 2 * rest >= d, 2 * rest > d)
}

/// The altitude `after` nanoseconds behind one of `base` feet, at a rate in feet per minute, to
/// the nearest foot.
pub(crate) fn project(base: i32, rate: Scalar, after: u64) -> (r: i32)
    requires
        rate_in_range(rate),
        after <= MINUTE,
    ensures
        r == projected(base as int, rate, after as int),
{
    if rate.nan() {
        return 0;
    }
    let negative: bool = rate.bits >= SIGN;
    let abs: u64 = if negative {
        rate.bits - SIGN
    } else {
        rate.bits
    };
    let (m, e) = split(abs);
    let ghost units = rate.abs_units();
    let ghost o = one();
    proof {
        assert(units == magnitude(abs as int));
        assert(units == m * pow2(e as nat));
        lemma_pow2_pos(1074);
        lemma_pow2_pos(e as nat);
        // The rate is believed, so its magnitude is.
        assert(rate.opposite().units() == -rate.units());
        assert(units <= MAX_RATE * o);
        if e >= 1074 {
            if e > 1074 {
                lemma_pow2_strictly_increases(1074, e as nat);
            }
            assert(units >= EXPONENT * o) by (nonlinear_arith)
                requires
                    units == m * pow2(e as nat),
                    m >= EXPONENT,
                    pow2(e as nat) >= o,
                    o > 0,
            ;
            assert(EXPONENT * o > MAX_RATE * o) by (nonlinear_arith)
                requires
                    o > 0,
                    EXPONENT == 0x10_0000_0000_0000,
                    MAX_RATE == 8000,
            ;
        }
    }
    let k: u64 = 1074 - e;
    let ghost c = pow2(e as nat) as int;
    let ghost p = pow2(k as nat) as int;
    let ghost d = MINUTE * p;
    let ghost n = m * after;
    proof {
        lemma_pow2_adds(k as nat, e as nat);
        lemma_pow2_pos(k as nat);
        assert(o == p * c);
        assert(m <= MAX_RATE * p) by (nonlinear_arith)
            requires
                m * c <= MAX_RATE * (p * c),
                c > 0,
        ;
    }
    let (q, half, more) = climb(m, k, after);
    let b: i64 = base as i64;
    proof {
        let y = o * MINUTE;
        let rest = n % d;
        assert(d > 0) by (nonlinear_arith)
            requires
                d == MINUTE * p,
                p > 0,
                MINUTE == 60_000_000_000,
        ;
        lemma_fundamental_div_mod(n, d);
        assert(y == d * c) by (nonlinear_arith)
            requires
                y == (p * c) * MINUTE,
                d == MINUTE * p,
        ;
        let sm: int = if negative {
            -(m as int)
        } else {
            m as int
        };
        let sn = sm * after;
        assert(rate.units() == sm * c) by (nonlinear_arith)
            requires
                units == m * c,
                rate.units() == units && sm == m || rate.units() == -units && sm == -(m as int),
        ;
        let x = base * d + sn;
        assert(base * (d * c) == (base * d) * c) by (nonlinear_arith);
        assert((sm * c) * after == (sm * after) * c) by (nonlinear_arith);
        assert((base * d) * c + sn * c == x * c) by (nonlinear_arith)
            requires
                x == base * d + sn,
        ;
        lemma_nearest_scaled(x, d, c);
        if negative {
            assert(sn == -n) by (nonlinear_arith)
                requires
                    sn == sm * after,
                    sm == -(m as int),
                    n == m * after,
            ;
            assert(-x == (q - base) * d + rest) by (nonlinear_arith)
                requires
                    x == base * d - n,
                    n == d * q + rest,
            ;
            lemma_nearest_odd(-x, d);
            lemma_nearest_parts(q - base, rest, d);
        } else {
            assert(x == (base + q) * d + rest) by (nonlinear_arith)
                requires
                    x == base * d + n,
                    n == d * q + rest,
            ;
            lemma_nearest_parts(base + q, rest, d);
        }
    }
    let whole: i64 = if negative {
        q as i64 - b
    } else {
        q as i64 + b
    };
    let up: bool = if whole >= 0 {
        half
    } else {
        more
    };
    let near: i64 = if up {
        whole + 1
    } else {
        whole
    };
    let sum: i64 = if negative {
        -near
    } else {
        near
    };
    if sum > i32::MAX as i64 {
        i32::MAX
    } else if sum < i32::MIN as i64 {
        i32::MIN
    } else {
        sum as i32
    }
}

/// A projected altitude is, to half a foot, what the rate gives: it lies above the base where the
/// rate is positive and below it where it is negative, the farther the longer ago the base is, and
/// a rate of zero leaves it.
pub proof fn law_projection_follows_the_rate(base: int, rate: Scalar, after: int)
    requires
        !rate.is_nan(),
        after >= 0,
        i32::MIN < projected(base, rate, after) < i32::MAX,
    ensures
        ({
            let minute = 60_000_000_000 * one();
            &&& -minute <= 2 * ((projected(base, rate, after) - base) * minute - rate.units()
                * after) <= minute
            &&& rate.units() >= 0 ==> projected(base, rate, after) >= base
            &&& rate.units() <= 0 ==> projected(base, rate, after) <= base
        }),
{
    lemma_pow2_pos(1074);
    let y = one() * MINUTE;
    let x = base * y + rate.units() * after;
    let p = projected(base, rate, after);
    assert(y > 0);
    lemma_nearest_is_near(x, y);
    assert((p - base) * y == p * y - base * y) by (nonlinear_arith);
    if rate.units() >= 0 {
        assert(rate.units() * after >= 0) by (nonlinear_arith)
            requires
                rate.units() >= 0,
                after >= 0,
        ;
        if p < base {
            assert((p - base) * y <= -y) by (nonlinear_arith)
                requires
                    p - base <= -1,
                    y > 0,
            ;
        }
    }
    if rate.units() <= 0 {
        assert(rate.units() * after <= 0) by (nonlinear_arith)
            requires
                rate.units() <= 0,
                after >= 0,
        ;
        if p > base {
            assert((p - base) * y >= y) by (nonlinear_arith)
                requires
                    p - base >= 1,
                    y > 0,
            ;
        }
    }
}

} // verus!

//! Measured quantities.
//!
//! A measurement is a binary64 number. It is stored by its bit pattern, compared with other
//! measurements and with exact rational limits, and rounded to an integer; sums and products
//! of measurements come from outside.

use vstd::arithmetic::div_mod::{
    lemma_div_denominator, lemma_div_multiples_vanish_quotient, lemma_fundamental_div_mod,
};
use vstd::arithmetic::mul::lemma_mul_strict_inequality;
use vstd::arithmetic::power2::{
    lemma2_to64, lemma2_to64_rest, lemma_pow2_adds, lemma_pow2_pos, lemma_pow2_strictly_increases, pow2,
};
use vstd::bits::{lemma_u128_shr_is_div, lemma_u64_shr_is_div};
use vstd::prelude::*;

verus! {

/// The bit pattern of positive infinity.
pub const INFINITE: u64 = 0x7ff0_0000_0000_0000;

/// The weight of the sign bit.
pub const SIGN: u64 = 0x8000_0000_0000_0000;

/// The weight of the lowest exponent bit.
pub const EXPONENT: u64 = 0x0010_0000_0000_0000;

/// A binary64 number, held by its bit pattern.
#[derive(Clone, Copy, Debug, PartialEq, Eq, Structural)]
pub struct Scalar {
    pub bits: u64,
}

/// The magnitude of the number whose bit pattern without the sign is `abs`, in units
/// of the smallest positive number. An infinity counts as the power of two that
/// follows the largest finite number.
pub open spec fn magnitude(abs: int) -> int {
    let exponent = abs / EXPONENT as int;
    let fraction = abs % EXPONENT as int;
    if exponent <= 0 {
        fraction
    } else {
        (EXPONENT + fraction) * pow2((exponent - 1) as nat)
    }
}

/// One, in units of the smallest positive number.
pub open spec fn one() -> int {
    pow2(1074) as int
}

/// The integer nearest to `x / y`, halves away from zero.
pub open spec fn nearest(x: int, y: int) -> int {
    if x < 0 {
        -((-2 * x + y) / (2 * y))
    } else {
        (2 * x + y) / (2 * y)
    }
}

/// `x`, brought into the range of `i32`.
pub open spec fn saturated(x: int) -> int {
    if x > i32::MAX {
        i32::MAX as int
    } else if x < i32::MIN {
        i32::MIN as int
    } else {
        x
    }
}

impl Scalar {
    /// The bit pattern without the sign.
    pub open spec fn abs_bits(self) -> int {
        if self.bits >= SIGN {
            self.bits - SIGN
        } else {
            self.bits as int
        }
    }

    pub open spec fn is_nan(self) -> bool {
        self.abs_bits() > INFINITE
    }

    pub open spec fn is_infinite(self) -> bool {
        self.abs_bits() == INFINITE
    }

    /// The number in units of the smallest positive number.
    pub open spec fn units(self) -> int {
        if self.bits >= SIGN {
            -magnitude(self.abs_bits())
        } else {
            magnitude(self.abs_bits())
        }
    }

    /// The magnitude of the number in units of the smallest positive number.
    pub open spec fn abs_units(self) -> int {
        magnitude(self.abs_bits())
    }

    /// The order of numbers. Nothing is less or greater than a NaN.
    pub open spec fn less(self, other: Scalar) -> bool {
        !self.is_nan() && !other.is_nan() && self.units() < other.units()
    }

    /// `self <= other`; false of a NaN.
    pub open spec fn at_most(self, other: Scalar) -> bool {
        !self.is_nan() && !other.is_nan() && self.units() <= other.units()
    }

    /// The number is greater than `num / den`.
    pub open spec fn above(self, num: int, den: int) -> bool {
        !self.is_nan() && self.units() * den > num * one()
    }

    /// The number is less than `num / den`.
    pub open spec fn beneath(self, num: int, den: int) -> bool {
        !self.is_nan() && self.units() * den < num * one()
    }

    /// The number with the other sign.
    pub open spec fn opposite(self) -> Scalar {
        Scalar {
            bits: if self.bits >= SIGN {
                (self.bits - SIGN) as u64
            } else {
                (self.bits + SIGN) as u64
            },
        }
    }

    /// The number, brought between two others; a NaN stays.
    pub open spec fn clamped(self, low: Scalar, high: Scalar) -> Scalar {
        if self.less(low) {
            low
        } else if high.less(self) {
            high
        } else {
            self
        }
    }

    /// `self * k < other * l`, where an infinity keeps its place above or below all
    /// finite numbers.
    pub open spec fn scaled_less(self, k: int, other: Scalar, l: int) -> bool {
        if self.is_nan() || other.is_nan() {
            false
        } else if self.is_infinite() || other.is_infinite() {
            self.units() < other.units()
        } else {
            self.units() * k < other.units() * l
        }
    }

    /// The integer nearest to `self / 2^shift`, halves away from zero, brought into the
    /// range of `i32`; zero for a NaN.
    pub open spec fn rounded(self, shift: nat) -> int {
        if self.is_nan() {
            0
        } else {
            saturated(nearest(self.units(), one() * pow2(shift)))
        }
    }
}

/// A larger bit pattern stands for a larger magnitude.
pub proof fn lemma_magnitude_increases(a: int, b: int)
    requires
        0 <= a < b <= INFINITE,
    ensures
        0 <= magnitude(a) < magnitude(b),
{
    let e: int = EXPONENT as int;
    let (ea, fa) = (a / e, a % e);
    let (eb, fb) = (b / e, b % e);
    assert(ea <= eb);
    lemma_pow2_pos(0);
    assert(pow2(0) == 1 && pow2(1) == 2) by {
        lemma2_to64();
    }
    if ea > 0 {
        lemma_pow2_pos((ea - 1) as nat);
        assert((e + fa) * pow2((ea - 1) as nat) >= 0) by (nonlinear_arith)
            requires
                e + fa >= 0,
                pow2((ea - 1) as nat) >= 0,
        ;
    }
    if ea == eb {
        assert(fa < fb);
        if ea > 0 {
            lemma_mul_strict_inequality(e + fa, e + fb, pow2((ea - 1) as nat) as int);
        }
    } else if ea == 0 {
        lemma_pow2_pos((eb - 1) as nat);
        assert((e + fb) * pow2((eb - 1) as nat) >= e) by (nonlinear_arith)
            requires
                e + fb >= e,
                e >= 0,
                pow2((eb - 1) as nat) >= 1,
        ;
    } else {
        let pa: int = pow2((ea - 1) as nat) as int;
        let pb: int = pow2((eb - 1) as nat) as int;
        lemma_pow2_pos((ea - 1) as nat);
        assert(pb >= 2 * pa) by {
            lemma_pow2_adds((ea - 1) as nat, 1);
            if ea < eb - 1 {
                lemma_pow2_strictly_increases(ea as nat, (eb - 1) as nat);
            }
        }
        assert((e + fa) * pa < (2 * e) * pa) by {
            lemma_mul_strict_inequality(e + fa, 2 * e, pa);
        }
        assert((2 * e) * pa == e * (2 * pa)) by (nonlinear_arith);
        assert(e * (2 * pa) <= (e + fb) * pb) by (nonlinear_arith)
            requires
                0 <= e <= e + fb,
                0 <= 2 * pa <= pb,
        ;
    }
}

/// The order of numbers is the order of their bit patterns, negative ones reversed.
proof fn lemma_order(a: Scalar, b: Scalar)
    requires
        !a.is_nan(),
        !b.is_nan(),
    ensures
        a.abs_units() >= 0,
        a.abs_bits() < b.abs_bits() <==> a.abs_units() < b.abs_units(),
        a.abs_bits() == b.abs_bits() <==> a.abs_units() == b.abs_units(),
        a.abs_units() == 0 <==> a.abs_bits() == 0,
        b.abs_units() == 0 <==> b.abs_bits() == 0,
{
    assert(magnitude(0) == 0);
    if a.abs_bits() < b.abs_bits() {
        lemma_magnitude_increases(a.abs_bits(), b.abs_bits());
    }
    if b.abs_bits() < a.abs_bits() {
        lemma_magnitude_increases(b.abs_bits(), a.abs_bits());
    }
    if a.abs_bits() > 0 {
        lemma_magnitude_increases(0, a.abs_bits());
    }
    if b.abs_bits() > 0 {
        lemma_magnitude_increases(0, b.abs_bits());
    }
}


/// `2^e <= 2^f` where `e <= f`.
proof fn lemma_pow2_ordered(e: nat, f: nat)
    requires
        e <= f,
    ensures
        0 < pow2(e) <= pow2(f),
{
    lemma_pow2_pos(e);
    if e < f {
        lemma_pow2_strictly_increases(e, f);
    }
}

/// The weights that the bounds below are built from.
proof fn lemma_weights()
    ensures
        pow2(0) == 1,
        pow2(1) == 2,
        pow2(12) == 0x1000,
        pow2(22) == 0x40_0000,
        pow2(52) == EXPONENT,
        pow2(53) == 2 * EXPONENT,
        pow2(61) == 0x2000_0000_0000_0000,
        pow2(64) == 0x1_0000_0000_0000_0000,
        pow2(117) == 2 * EXPONENT * pow2(64),
{
    lemma2_to64();
    vstd::arithmetic::power2::lemma2_to64_rest();
    lemma_pow2_adds(53, 64);
}

/// The significand and the exponent of a number: its magnitude is `result.0 * 2^result.1`.
pub(crate) fn split(abs: u64) -> (result: (u64, u64))
    requires
        abs <= INFINITE,
    ensures
        magnitude(abs as int) == result.0 * pow2(result.1 as nat),
        result.0 < 2 * EXPONENT,
        result.1 <= 2046,
        result.1 > 0 ==> result.0 >= EXPONENT,
        result.1 == 0 ==> (result.0 < EXPONENT <==> abs < EXPONENT),
{
    let exponent: u64 = abs / EXPONENT;
    let fraction: u64 = abs % EXPONENT;
    proof {
        lemma_weights();
        assert(fraction * pow2(0) == fraction) by (nonlinear_arith)
            requires
                pow2(0) == 1,
        ;
    }
    if exponent == 0 {
        (fraction, 0)
    } else {
        (EXPONENT + fraction, exponent - 1)
    }
}

/// `a > n * 2^k` is decided by the quotient of `a - 1`.
proof fn lemma_above_by_quotient(a: int, n: int, k: nat)
    requires
        a > 0,
    ensures
        a > n * pow2(k) <==> (a - 1) / (pow2(k) as int) >= n,
{
    let p: int = pow2(k) as int;
    lemma_pow2_pos(k);
    lemma_fundamental_div_mod(a - 1, p);
    let q = (a - 1) / p;
    let r = (a - 1) % p;
    assert(0 <= r < p);
    assert(a - 1 == p * q + r);
    if q >= n {
        assert(p * q >= n * p) by (nonlinear_arith)
            requires
                q >= n,
                p > 0,
        ;
    } else {
        assert(p * q + p <= n * p) by (nonlinear_arith)
            requires
                q + 1 <= n,
                p > 0,
        ;
    }
}

/// `a < n * 2^k` is decided by the quotient of `a`.
proof fn lemma_below_by_quotient(a: int, n: int, k: nat)
    ensures
        a < n * pow2(k) <==> a / (pow2(k) as int) < n,
{
    let p: int = pow2(k) as int;
    lemma_pow2_pos(k);
    lemma_fundamental_div_mod(a, p);
    let q = a / p;
    let r = a % p;
    assert(0 <= r < p);
    if q < n {
        assert(p * q + p <= n * p) by (nonlinear_arith)
            requires
                q + 1 <= n,
                p > 0,
        ;
    } else {
        assert(p * q >= n * p) by (nonlinear_arith)
            requires
                q >= n,
                p > 0,
        ;
    }
}

/// Powers of two cancel from a comparison.
proof fn lemma_cancel(a: int, e: nat, b: int, f: nat)
    ensures
        e >= f ==> (a * pow2(e) > b * pow2(f) <==> a * pow2((e - f) as nat) > b),
        e <= f ==> (a * pow2(e) > b * pow2(f) <==> a > b * pow2((f - e) as nat)),
        e >= f ==> (a * pow2(e) < b * pow2(f) <==> a * pow2((e - f) as nat) < b),
        e <= f ==> (a * pow2(e) < b * pow2(f) <==> a < b * pow2((f - e) as nat)),
{
    if e >= f {
        let d: int = pow2((e - f) as nat) as int;
        let p: int = pow2(f) as int;
        lemma_pow2_adds((e - f) as nat, f);
        lemma_pow2_pos(f);
        assert(a * (d * p) == (a * d) * p) by (nonlinear_arith);
        assert(pow2(e) == d * p);
        lemma_scale(a * d, b, p);
    }
    if e <= f {
        let d: int = pow2((f - e) as nat) as int;
        let p: int = pow2(e) as int;
        lemma_pow2_adds((f - e) as nat, e);
        lemma_pow2_pos(e);
        assert(b * (d * p) == (b * d) * p) by (nonlinear_arith);
        assert(pow2(f) == d * p);
        lemma_scale(a, b * d, p);
    }
}

proof fn lemma_scale(a: int, b: int, p: int)
    requires
        p > 0,
    ensures
        a * p > b * p <==> a > b,
        a * p < b * p <==> a < b,
{
    if a > b {
        lemma_mul_strict_inequality(b, a, p);
    } else if a < b {
        lemma_mul_strict_inequality(a, b, p);
    }
}

impl Scalar {
    /// The number with this bit pattern.
    pub fn new(bits: u64) -> (s: Scalar)
        ensures
            s.bits == bits,
    {
        Scalar { bits }
    }

    /// Zero.
    pub fn zero() -> (s: Scalar)
        ensures
            s.bits == 0,
            s.units() == 0,
            !s.is_nan(),
    {
        Scalar { bits: 0 }
    }

    /// The bit pattern without the sign.
    fn abs(self) -> (abs: u64)
        ensures
            abs == self.abs_bits(),
    {
        if self.bits >= SIGN {
            self.bits - SIGN
        } else {
            self.bits
        }
    }

    /// Whether this is no number.
    pub fn nan(self) -> (r: bool)
        ensures
            r == self.is_nan(),
    {
        self.abs() > INFINITE
    }

    /// `self < other`, as binary64 numbers compare.
    pub fn lt(self, other: Scalar) -> (r: bool)
        ensures
            r == self.less(other),
    {
        if self.nan() || other.nan() {
            return false;
        }
        proof {
            lemma_order(self, other);
            lemma_order(other, self);
        }
        let a: u64 = self.abs();
        let b: u64 = other.abs();
        if self.bits >= SIGN {
            if other.bits >= SIGN {
                b < a
            } else {
                a != 0 || b != 0
            }
        } else if other.bits >= SIGN {
            false
        } else {
            a < b
        }
    }

    /// `self <= other`, as binary64 numbers compare.
    pub fn le(self, other: Scalar) -> (r: bool)
        ensures
            r == self.at_most(other),
    {
        !self.nan() && !other.nan() && !other.lt(self)
    }

    /// Whether the number is greater than `num / den`.
    pub fn exceeds(self, num: u64, den: u64) -> (r: bool)
        requires
            den > 0,
        ensures
            r == self.above(num as int, den as int),
    {
        let abs: u64 = self.abs();
        if abs > INFINITE {
            return false;
        }
        proof {
            lemma_order(self, self);
            lemma_weights();
            lemma_pow2_pos(1074);
            assert(num * one() >= 0) by (nonlinear_arith)
                requires
                    num >= 0,
                    one() >= 0,
            ;
        }
        if self.bits >= SIGN || abs == 0 {
            proof {
                assert(self.units() <= 0);
                assert(self.units() * den <= 0) by (nonlinear_arith)
                    requires
                        self.units() <= 0,
                        den > 0,
                ;
            }
            return false;
        }
        let (m, e) = split(abs);
        assert(m > 0) by {
            if m == 0 {
                assert(m * pow2(e as nat) == 0) by (nonlinear_arith)
                    requires
                        m == 0,
                ;
            }
        }
        let a: u128 = {
            assert(1 <= m * den < pow2(117)) by (nonlinear_arith)
                requires
                    1 <= m < 2 * EXPONENT,
                    1 <= den < pow2(64),
                    pow2(117) == 2 * EXPONENT * pow2(64),
            ;
            assert(pow2(117) <= u128::MAX) by (nonlinear_arith)
                requires
                    pow2(117) == 2 * EXPONENT * pow2(64),
                    pow2(64) == 0x1_0000_0000_0000_0000,
            ;
            (m as u128) * (den as u128)
        };
        proof {
            assert((m * pow2(e as nat)) * den == (m * den) * pow2(e as nat)) by (nonlinear_arith);
            lemma_cancel(a as int, e as nat, num as int, 1074);
            assert(self.above(num as int, den as int) <==> a * pow2(e as nat) > num * pow2(1074));
        }
        if e >= 1074 {
            let d: u64 = e - 1074;
            if d >= 12 {
                assert(a * pow2(d as nat) > num) by {
                    lemma_pow2_ordered(12, d as nat);
                    assert(m * den >= EXPONENT) by (nonlinear_arith)
                        requires
                            m >= EXPONENT,
                            den >= 1,
                    ;
                    assert(a * pow2(d as nat) >= EXPONENT * 0x1000) by (nonlinear_arith)
                        requires
                            a >= EXPONENT,
                            pow2(d as nat) >= 0x1000,
                    ;
                }
                true
            } else {
                proof {
                    lemma_u64_shr_is_div(num, d);
                    lemma_below_by_quotient(num as int, a as int, d as nat);
                }
                a > (num >> d) as u128
            }
        } else {
            let k: u64 = 1074 - e;
            if k >= 117 {
                assert(a > num * pow2(k as nat) <==> num == 0) by {
                    lemma_pow2_ordered(117, k as nat);
                    assert(num == 0 ==> num * pow2(k as nat) == 0) by (nonlinear_arith);
                    if num > 0 {
                        assert(num * pow2(k as nat) >= pow2(k as nat)) by (nonlinear_arith)
                            requires
                                num >= 1,
                        ;
                    }
                }
                num == 0
            } else {
                proof {
                    lemma_u128_shr_is_div((a - 1) as u128, k as u128);
                    lemma_above_by_quotient(a as int, num as int, k as nat);
                }
                ((a - 1) >> (k as u128)) >= num as u128
            }
        }
    }

    /// Whether the number is less than `num / den`.
    pub fn falls_below(self, num: u64, den: u64) -> (r: bool)
        requires
            den > 0,
        ensures
            r == self.beneath(num as int, den as int),
    {
        let abs: u64 = self.abs();
        if abs > INFINITE {
            return false;
        }
        proof {
            lemma_order(self, self);
            lemma_weights();
            lemma_pow2_pos(1074);
            assert(num > 0 ==> num * one() > 0) by (nonlinear_arith)
                requires
                    one() > 0,
            ;
            assert(num == 0 ==> num * one() == 0) by (nonlinear_arith);
        }
        if self.bits >= SIGN || abs == 0 {
            proof {
                assert(self.units() < 0 ==> self.units() * den < 0) by (nonlinear_arith)
                    requires
                        den > 0,
                ;
                assert(self.units() == 0 ==> self.units() * den == 0) by (nonlinear_arith);
            }
            return num > 0 || abs > 0;
        }
        let (m, e) = split(abs);
        assert(m > 0) by {
            assert(m == 0 ==> m * pow2(e as nat) == 0) by (nonlinear_arith);
        }
        let a: u128 = {
            assert(1 <= m * den < pow2(117)) by (nonlinear_arith)
                requires
                    1 <= m < 2 * EXPONENT,
                    1 <= den < pow2(64),
                    pow2(117) == 2 * EXPONENT * pow2(64),
            ;
            assert(pow2(117) <= u128::MAX) by (nonlinear_arith)
                requires
                    pow2(117) == 2 * EXPONENT * pow2(64),
                    pow2(64) == 0x1_0000_0000_0000_0000,
            ;
            (m as u128) * (den as u128)
        };
        proof {
            assert((m * pow2(e as nat)) * den == (m * den) * pow2(e as nat)) by (nonlinear_arith);
            lemma_cancel(a as int, e as nat, num as int, 1074);
            assert(self.beneath(num as int, den as int) <==> a * pow2(e as nat) < num * pow2(1074));
        }
        if e >= 1074 {
            let d: u64 = e - 1074;
            assert(a * pow2(d as nat) >= a) by {
                lemma_pow2_pos(d as nat);
                assert(a * pow2(d as nat) >= a) by (nonlinear_arith)
                    requires
                        pow2(d as nat) >= 1,
                ;
            }
            if num == 0 {
                false
            } else if d >= 12 {
                assert(a * pow2(d as nat) > num) by {
                    lemma_pow2_ordered(12, d as nat);
                    assert(m * den >= EXPONENT) by (nonlinear_arith)
                        requires
                            m >= EXPONENT,
                            den >= 1,
                    ;
                    assert(a * pow2(d as nat) >= EXPONENT * 0x1000) by (nonlinear_arith)
                        requires
                            a >= EXPONENT,
                            pow2(d as nat) >= 0x1000,
                    ;
                }
                false
            } else {
                proof {
                    lemma_u64_shr_is_div((num - 1) as u64, d);
                    lemma_above_by_quotient(num as int, a as int, d as nat);
                }
                a <= ((num - 1) >> d) as u128
            }
        } else {
            let k: u64 = 1074 - e;
            if k >= 117 {
                assert(a < num * pow2(k as nat) <==> num > 0) by {
                    lemma_pow2_ordered(117, k as nat);
                    assert(num == 0 ==> num * pow2(k as nat) == 0) by (nonlinear_arith);
                    assert(num > 0 ==> num * pow2(k as nat) >= pow2(k as nat)) by (nonlinear_arith);
                }
                num > 0
            } else {
                proof {
                    lemma_u128_shr_is_div(a, k as u128);
                    lemma_below_by_quotient(a as int, num as int, k as nat);
                }
                (a >> (k as u128)) < num as u128
            }
        }
    }

    /// The number with the other sign.
    pub fn negated(self) -> (r: Scalar)
        ensures
            r == self.opposite(),
            r.units() == -self.units(),
            r.is_nan() == self.is_nan(),
    {
        if self.bits >= SIGN {
            Scalar { bits: self.bits - SIGN }
        } else {
            Scalar { bits: self.bits + SIGN }
        }
    }

    /// Whether `self * k` is less than `other * l`.
    pub fn scaled_lt(self, k: u8, other: Scalar, l: u8) -> (r: bool)
        requires
            k > 0,
            l > 0,
        ensures
            r == self.scaled_less(k as int, other, l as int),
    {
        let a: u64 = self.abs();
        let b: u64 = other.abs();
        if a > INFINITE || b > INFINITE {
            return false;
        }
        if a == INFINITE || b == INFINITE {
            return self.lt(other);
        }
        proof {
            lemma_order(self, other);
            lemma_order(other, self);
            assert(self.abs_units() * k >= 0) by (nonlinear_arith)
                requires
                    self.abs_units() >= 0,
            ;
            assert(other.abs_units() * l >= 0) by (nonlinear_arith)
                requires
                    other.abs_units() >= 0,
            ;
            assert(a == 0 <==> self.abs_units() * k == 0) by (nonlinear_arith)
                requires
                    a == 0 <==> self.abs_units() == 0,
                    k > 0,
            ;
            assert(b == 0 <==> other.abs_units() * l == 0) by (nonlinear_arith)
                requires
                    b == 0 <==> other.abs_units() == 0,
                    l > 0,
            ;
            assert((-self.abs_units()) * k == -(self.abs_units() * k)) by (nonlinear_arith);
            assert((-other.abs_units()) * l == -(other.abs_units() * l)) by (nonlinear_arith);
        }
        if self.bits >= SIGN {
            if other.bits >= SIGN {
                magnitude_scaled_lt(b, l, a, k)
            } else {
                a != 0 || b != 0
            }
        } else if other.bits >= SIGN {
            false
        } else {
            magnitude_scaled_lt(a, k, b, l)
        }
    }
}

/// Whether the magnitude of the pattern `a` times `k` is less than that of `b` times `l`.
fn magnitude_scaled_lt(a: u64, k: u8, b: u64, l: u8) -> (r: bool)
    requires
        a <= INFINITE,
        b <= INFINITE,
        k > 0,
        l > 0,
    ensures
        r == (magnitude(a as int) * k < magnitude(b as int) * l),
{
    let (m, e) = split(a);
    let (n, f) = split(b);
    assert(m * k <= 2 * EXPONENT * 0xff) by (nonlinear_arith)
        requires
            m <= 2 * EXPONENT,
            k <= 0xff,
    ;
    assert(n * l <= 2 * EXPONENT * 0xff) by (nonlinear_arith)
        requires
            n <= 2 * EXPONENT,
            l <= 0xff,
    ;
    let x: u64 = m * k as u64;
    let y: u64 = n * l as u64;
    proof {
        lemma_weights();
        assert((m * pow2(e as nat)) * k == x * pow2(e as nat)) by (nonlinear_arith)
            requires
                x == m * k,
        ;
        assert((n * pow2(f as nat)) * l == y * pow2(f as nat)) by (nonlinear_arith)
            requires
                y == n * l,
        ;
        lemma_cancel(x as int, e as nat, y as int, f as nat);
    }
    if e >= f {
        let d: u64 = e - f;
        if y == 0 {
            assert(x * pow2(d as nat) >= 0) by (nonlinear_arith);
            false
        } else if d >= 61 {
            assert(x * pow2(d as nat) < y <==> x == 0) by {
                lemma_pow2_ordered(61, d as nat);
                assert(x > 0 ==> x * pow2(d as nat) >= pow2(d as nat)) by (nonlinear_arith);
                assert(x == 0 ==> x * pow2(d as nat) == 0) by (nonlinear_arith);
            }
            x == 0
        } else {
            proof {
                lemma_u64_shr_is_div((y - 1) as u64, d);
                lemma_above_by_quotient(y as int, x as int, d as nat);
            }
            x <= (y - 1) >> d
        }
    } else {
        let d: u64 = f - e;
        if d >= 61 {
            assert(x < y * pow2(d as nat) <==> y > 0) by {
                lemma_pow2_ordered(61, d as nat);
                assert(y > 0 ==> y * pow2(d as nat) >= pow2(d as nat)) by (nonlinear_arith);
                assert(y == 0 ==> y * pow2(d as nat) == 0) by (nonlinear_arith);
            }
            y > 0
        } else {
            proof {
                lemma_u64_shr_is_div(x, d);
                lemma_below_by_quotient(x as int, y as int, d as nat);
            }
            (x >> d) < y
        }
    }
}

/// Rounding `m * 2^e / 2^t` to the nearest integer, by the part of `m` above the half.
proof fn lemma_nearest(m: int, e: nat, t: nat)
    requires
        m >= 0,
        e < t,
    ensures
        nearest(m * pow2(e), pow2(t) as int) == (m / (pow2((t - e - 1) as nat) as int) + 1) / 2,
{
    let k = (t - e) as nat;
    let p: int = pow2(e) as int;
    let h: int = pow2((k - 1) as nat) as int;
    lemma_pow2_pos(e);
    lemma_pow2_pos((k - 1) as nat);
    lemma_pow2_adds(k, e);
    lemma_pow2_adds((k - 1) as nat, 1);
    lemma_weights();
    assert(pow2(t) == (2 * h) * p);
    assert(m * p >= 0) by (nonlinear_arith)
        requires
            m >= 0,
            p >= 0,
    ;
    assert(2 * (m * p) + (2 * h) * p == (2 * p) * (m + h)) by (nonlinear_arith);
    assert(2 * ((2 * h) * p) == (2 * p) * (2 * h)) by (nonlinear_arith);
    assert((2 * p) * (m + h) / ((2 * p) * (2 * h)) == (m + h) / (2 * h)) by {
        lemma_div_multiples_vanish_quotient(2 * p, m + h, 2 * h);
    }
    assert((m + h) / (2 * h) == ((m + h) / h) / 2) by {
        assert(h * 2 == 2 * h);
        lemma_div_denominator(m + h, h, 2);
    }
    assert((m + h) / h == m / h + 1) by {
        vstd::arithmetic::div_mod::lemma_div_plus_one(m, h);
    }
}

/// The integer nearest to the magnitude of a pattern over `2^shift`, cut off above the
/// range of `i32`.
fn magnitude_round(abs: u64, shift: u64) -> (q: u32)
    requires
        abs <= INFINITE,
        shift <= 16,
    ensures
        q <= 0x8000_0000,
        ({
            let n = nearest(magnitude(abs as int), one() * pow2(shift as nat));
            &&& n >= 0
            &&& n < 0x8000_0000 ==> q == n
            &&& n >= 0x8000_0000 ==> q == 0x8000_0000
        }),
{
    let (m, e) = split(abs);
    let t: u64 = 1074 + shift;
    let ghost n = nearest(magnitude(abs as int), one() * pow2(shift as nat));
    proof {
        lemma_pow2_adds(1074, shift as nat);
        lemma_weights();
        vstd::arithmetic::power2::lemma2_to64_rest();
        lemma_pow2_pos(t as nat);
        lemma_pow2_pos(e as nat);
        assert(m * pow2(e as nat) >= 0) by (nonlinear_arith);
    }
    if e + 21 >= t {
        proof {
            let y: int = pow2(t as nat) as int;
            let u: int = m * pow2(e as nat);
            assert(u >= 0x8000_0000 * y) by {
                lemma_pow2_ordered((t - 21) as nat, e as nat);
                lemma_pow2_adds((t - 21) as nat, 21);
                assert(pow2(21) == 0x20_0000) by {
                    lemma2_to64();
                }
                let z: int = pow2((t - 21) as nat) as int;
                assert(u >= EXPONENT * z) by (nonlinear_arith)
                    requires
                        u == m * pow2(e as nat),
                        m >= EXPONENT,
                        pow2(e as nat) >= z,
                        z >= 0,
                ;
                assert(EXPONENT * z == 0x8000_0000 * y) by (nonlinear_arith)
                    requires
                        y == z * 0x20_0000,
                ;
            }
            lemma_fundamental_div_mod(2 * u + y, 2 * y);
            let q = (2 * u + y) / (2 * y);
            assert(q >= 0x8000_0000) by (nonlinear_arith)
                requires
                    2 * u + y == (2 * y) * q + (2 * u + y) % (2 * y),
                    (2 * u + y) % (2 * y) < 2 * y,
                    u >= 0x8000_0000 * y,
                    y > 0,
            ;
        }
        return 0x8000_0000;
    }
    let k: u64 = t - e;
    proof {
        lemma_nearest(m as int, e as nat, t as nat);
    }
    if k >= 64 {
        proof {
            lemma_pow2_ordered(54, (k - 1) as nat);
            vstd::arithmetic::div_mod::lemma_basic_div(m as int, pow2((k - 1) as nat) as int);
        }
        return 0;
    }
    proof {
        lemma_u64_shr_is_div(m, (k - 1) as u64);
        lemma_pow2_ordered(21, (k - 1) as nat);
        assert(pow2(21) == 0x20_0000) by {
            lemma2_to64();
        }
        let h: int = pow2((k - 1) as nat) as int;
        assert(m as int / h <= 0xffff_ffff) by (nonlinear_arith)
            requires
                0 <= m < 0x20_0000_0000_0000,
                h >= 0x20_0000,
        ;
    }
    let half: u64 = m >> (k - 1);
    ((half + 1) / 2) as u32
}

impl Scalar {
    /// The integer nearest to `self / 2^shift`, halves away from zero, cut off at the
    /// limits of `i32`; zero for a NaN.
    pub fn round(self, shift: u64) -> (r: i32)
        requires
            shift <= 16,
        ensures
            r == self.rounded(shift as nat),
    {
        let abs: u64 = self.abs();
        if abs > INFINITE {
            return 0;
        }
        let q: u32 = magnitude_round(abs, shift);
        proof {
            lemma_order(self, self);
            lemma_pow2_pos(1074);
            lemma_pow2_pos(shift as nat);
            let y = one() * pow2(shift as nat);
            assert(y > 0) by (nonlinear_arith)
                requires
                    one() > 0,
                    pow2(shift as nat) > 0,
                    y == one() * pow2(shift as nat),
            ;
            if self.abs_units() == 0 {
                assert(y / (2 * y) == 0) by {
                    vstd::arithmetic::div_mod::lemma_basic_div(y, 2 * y);
                }
            }
        }
        if self.bits >= SIGN {
            if q == 0x8000_0000 {
                i32::MIN
            } else {
                -(q as i32)
            }
        } else if q == 0x8000_0000 {
            i32::MAX
        } else {
            q as i32
        }
    }
}

impl Scalar {
    /// The number, brought between two others; a NaN stays.
    pub fn clamp(self, low: Scalar, high: Scalar) -> (r: Scalar)
        ensures
            r == self.clamped(low, high),
    {
        if self.lt(low) {
            low
        } else if high.lt(self) {
            high
        } else {
            self
        }
    }
}

/// A number that is brought between two others is between them.
pub proof fn law_clamped_is_between(x: Scalar, low: Scalar, high: Scalar)
    requires
        !x.is_nan(),
        low.at_most(high),
    ensures
        low.at_most(x.clamped(low, high)),
        x.clamped(low, high).at_most(high),
{
}

/// Of two bit patterns without a sign the smaller stands for the smaller number.
pub proof fn lemma_positive_order(a: Scalar, b: Scalar)
    requires
        a.bits < b.bits <= INFINITE,
    ensures
        a.less(b),
        a.at_most(b),
        a.opposite().less(b),
        b.opposite().units() == -b.units(),
        a.units() >= 0,
{
    lemma_order(a, b);
}

/// Numbers are ordered: none is less than itself, one that is less than a second is less than
/// what the second is less than, and of two that differ one is less.
pub proof fn law_numbers_are_ordered(a: Scalar, b: Scalar, c: Scalar)
    ensures
        !a.less(a),
        a.less(b) && b.less(c) ==> a.less(c),
        !a.is_nan() && !b.is_nan() ==> a.less(b) || b.less(a) || a.units() == b.units(),
        a.at_most(b) <==> a.less(b) || (!a.is_nan() && !b.is_nan() && a.units() == b.units()),
{
}

/// The value of a pattern: its significand is scaled by a power of two.
pub proof fn lemma_units(abs: int, m: int, c: int)
    requires
        EXPONENT <= abs < INFINITE,
        abs / EXPONENT as int <= 1075,
        m == EXPONENT + abs % EXPONENT as int,
        c == pow2((1075 - abs / EXPONENT as int) as nat),
    ensures
        magnitude(abs) * c == m * one(),
{
    let e = abs / EXPONENT as int;
    lemma_pow2_adds((e - 1) as nat, (1075 - e) as nat);
    let p = pow2((e - 1) as nat) as int;
    assert((m * p) * c == m * (p * c)) by (nonlinear_arith);
}

/// The pattern of one is worth one, and one step of the exponent doubles a number.
pub proof fn law_exponent_doubles(x: Scalar)
    requires
        EXPONENT <= x.abs_bits() < INFINITE - EXPONENT,
    ensures
        (Scalar { bits: 0x3ff0_0000_0000_0000 }).units() == one(),
        (Scalar { bits: (x.bits + EXPONENT) as u64 }).units() == 2 * x.units(),
{
    lemma2_to64();
    lemma2_to64_rest();
    lemma_units(0x3ff0_0000_0000_0000, 0x10_0000_0000_0000, 0x10_0000_0000_0000);
    let a = x.abs_bits();
    let e = a / EXPONENT as int;
    let f = a % EXPONENT as int;
    let y = Scalar { bits: (x.bits + EXPONENT) as u64 };
    assert(y.abs_bits() == a + EXPONENT);
    assert((a + EXPONENT) / EXPONENT as int == e + 1);
    assert((a + EXPONENT) % EXPONENT as int == f);
    lemma_pow2_adds((e - 1) as nat, 1);
    assert((EXPONENT + f) * (pow2((e - 1) as nat) * 2) == 2 * ((EXPONENT + f) * pow2(
        (e - 1) as nat,
    ))) by (nonlinear_arith);
}

/// Numbers without a sign are ordered as their patterns, those with one the other way round and
/// below them; the two zeros are equal, and nothing is less than a NaN or the other way round.
pub proof fn law_order_of_patterns(a: Scalar, b: Scalar)
    ensures
        a.abs_bits() <= INFINITE && b.abs_bits() <= INFINITE && a.bits < SIGN && b.bits < SIGN ==> (
        a.less(b) <==> a.bits < b.bits),
        a.abs_bits() <= INFINITE && b.abs_bits() <= INFINITE && a.bits >= SIGN && b.bits >= SIGN
            ==> (a.less(b) <==> b.bits < a.bits),
        a.abs_bits() <= INFINITE && b.abs_bits() <= INFINITE && a.bits >= SIGN && b.bits < SIGN ==> (
        a.less(b) <==> !(a.bits == SIGN && b.bits == 0)),
        a.bits < SIGN && b.bits >= SIGN ==> !a.less(b),
        a.abs_bits() > INFINITE || b.abs_bits() > INFINITE ==> !a.less(b) && !a.at_most(b),
        a.abs_bits() <= INFINITE && b.abs_bits() <= INFINITE ==> (a.at_most(b) <==> !b.less(a)),
{
    if a.abs_bits() <= INFINITE && b.abs_bits() <= INFINITE {
        lemma_order(a, b);
        lemma_order(b, a);
    }
}

/// A number is above a fraction if and only if it is greater than the number that the fraction
/// is, and beneath it if and only if it is less.
pub proof fn law_fractions_are_numbers(x: Scalar, limit: Scalar, num: int, den: int)
    requires
        den > 0,
        !limit.is_nan(),
        limit.units() * den == num * one(),
    ensures
        x.above(num, den) <==> limit.less(x),
        x.beneath(num, den) <==> x.less(limit),
{
    let u = x.units();
    let l = limit.units();
    if u > l {
        lemma_mul_strict_inequality(l, u, den);
    } else if u < l {
        lemma_mul_strict_inequality(u, l, den);
    }
}

/// The number with the other sign lies as far on the other side of zero.
pub proof fn law_opposite_mirrors(a: Scalar, b: Scalar)
    ensures
        a.opposite().units() == -a.units(),
        a.opposite().opposite() == a,
        a.less(b) <==> b.opposite().less(a.opposite()),
{
}

/// A number between two others stays; one below them becomes the lower, one above them the
/// upper.
pub proof fn law_clamped_is_nearest(x: Scalar, low: Scalar, high: Scalar)
    requires
        low.at_most(high),
        !x.is_nan(),
    ensures
        low.units() <= x.units() <= high.units() ==> x.clamped(low, high) == x,
        x.units() < low.units() ==> x.clamped(low, high) == low,
        x.units() > high.units() ==> x.clamped(low, high) == high,
{
}

/// A number that is rounded moves by no more than half a step of `2^shift`, and its opposite is
/// rounded to the opposite.
pub proof fn law_rounded_is_nearest(x: Scalar, shift: nat)
    requires
        !x.is_nan(),
        i32::MIN < x.rounded(shift) < i32::MAX,
    ensures
        ({
            let step = one() * pow2(shift);
            &&& -step <= 2 * (x.rounded(shift) * step - x.units()) <= step
            &&& x.opposite().rounded(shift) == -x.rounded(shift)
            &&& x.units() > 0 ==> x.rounded(shift) >= 0
            &&& x.units() < 0 ==> x.rounded(shift) <= 0
        }),
{
    lemma_pow2_pos(1074);
    lemma_pow2_pos(shift);
    let y = one() * pow2(shift);
    assert(y > 0) by (nonlinear_arith)
        requires
            one() > 0,
            pow2(shift) > 0,
            y == one() * pow2(shift),
    ;
    lemma_nearest_is_near(x.units(), y);
    lemma_nearest_is_near(-x.units(), y);
}

pub proof fn lemma_nearest_is_near(x: int, y: int)
    requires
        y > 0,
    ensures
        -y <= 2 * (nearest(x, y) * y - x) <= y,
        nearest(-x, y) == -nearest(x, y),
        x >= 0 ==> nearest(x, y) >= 0,
        x <= 0 ==> nearest(x, y) <= 0,
{
    let a = if x < 0 {
        -x
    } else {
        x
    };
    let q = (2 * a + y) / (2 * y);
    lemma_fundamental_div_mod(2 * a + y, 2 * y);
    vstd::arithmetic::div_mod::lemma_mod_bound(2 * a + y, 2 * y);
    vstd::arithmetic::div_mod::lemma_div_pos_is_pos(2 * a + y, 2 * y);
    assert((2 * y) * q == 2 * (q * y)) by (nonlinear_arith);
    assert((-q) * y == -(q * y)) by (nonlinear_arith);
    if x == 0 {
        vstd::arithmetic::div_mod::lemma_basic_div(y, 2 * y);
    }
}

/// What is scaled by the same number on both sides is ordered as before, and one that is less
/// than another stays less where it is scaled by less.
pub proof fn law_scaling_keeps_order(a: Scalar, b: Scalar, k: int, l: int)
    requires
        0 < k,
        0 < l,
    ensures
        a.scaled_less(k, b, k) <==> a.less(b),
        !a.is_nan() && !b.is_nan() && !a.is_infinite() && !b.is_infinite() ==> (a.scaled_less(
            k,
            b,
            l,
        ) <==> k * a.units() < l * b.units()),
        a.is_nan() || b.is_nan() ==> !a.scaled_less(k, b, l),
{
    let (u, v) = (a.units(), b.units());
    if u < v {
        lemma_mul_strict_inequality(u, v, k);
    } else if v < u {
        lemma_mul_strict_inequality(v, u, k);
    }
    assert(u * k == k * u && v * l == l * v) by (nonlinear_arith);
}

} // verus!

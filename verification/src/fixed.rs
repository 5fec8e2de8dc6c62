//! Numbers with six decimals.

use crate::scalar::{magnitude, one, split, Scalar, EXPONENT, INFINITE, SIGN};
use crate::text::{decimal, push_decimal, push_text};
use vstd::arithmetic::div_mod::lemma_fundamental_div_mod;
use vstd::arithmetic::div_mod::lemma_fundamental_div_mod_converse;
use vstd::arithmetic::power2::{
    lemma2_to64, lemma2_to64_rest, lemma_pow2_adds, lemma_pow2_pos, lemma_pow2_strictly_increases,
    pow2,
};
use vstd::prelude::*;

verus! {

/// So many parts has a unit.
pub const MILLION: u64 = 1_000_000;

/// The integer nearest to `x / y`, halves to the even one; neither is negative.
pub open spec fn nearest_even(x: int, y: int) -> int {
    let q = x / y;
    let r = x % y;
    if 2 * r > y || (2 * r == y && q % 2 == 1) {
        q + 1
    } else {
        q
    }
}

/// The magnitude of a number in millionths.
pub open spec fn millionths(s: Scalar) -> int {
    nearest_even(s.abs_units() * MILLION, one())
}

/// The last `width` digits of a number in base 10.
pub open spec fn last_digits(n: nat, width: nat) -> Seq<char>
    decreases width,
{
    if width == 0 {
        Seq::empty()
    } else {
        last_digits(n / 10, (width - 1) as nat).push((n % 10 + 0x30) as u8 as char)
    }
}

/// A number with six decimals.
pub open spec fn fixed6(s: Scalar) -> Seq<char> {
    let sign = if s.bits >= SIGN {
        "-"@
    } else {
        ""@
    };
    if s.is_nan() {
        "NaN"@
    } else if s.is_infinite() {
        sign + "inf"@
    } else {
        let q = millionths(s) as nat;
        sign + decimal(q / MILLION as nat) + "."@ + last_digits(q % MILLION as nat, 6)
    }
}

/// Appends the last `width` digits of a number.
fn push_digits(s: &mut String, n: u64, width: u64)
    ensures
        final(s)@ == old(s)@ + last_digits(n as nat, width as nat),
    decreases width,
{
    if width > 0 {
        push_digits(s, n / 10, width - 1);
        s.push(((n % 10) as u8 + 0x30) as char);
    }
    assert(s@ =~= old(s)@ + last_digits(n as nat, width as nat));
}

/// A power of ten.
pub open spec fn pow10(n: nat) -> nat
    decreases n,
{
    if n == 0 {
        1
    } else {
        10 * pow10((n - 1) as nat)
    }
}

/// The number that digits stand for, the least significant one first.
pub open spec fn value(digits: Seq<u8>) -> nat
    decreases digits.len(),
{
    if digits.len() == 0 {
        0
    } else {
        value(digits.drop_last()) + digits.last() as nat * pow10((digits.len() - 1) as nat)
    }
}

/// Each is a digit, and the most significant one is not zero.
pub open spec fn are_digits(digits: Seq<u8>) -> bool {
    &&& digits.len() > 0
    &&& digits.last() > 0
    &&& forall|i: int| 0 <= i < digits.len() ==> (#[trigger] digits[i]) < 10
}

/// Digits as characters, the most significant one first.
pub open spec fn written(digits: Seq<u8>) -> Seq<char> {
    Seq::new(digits.len(), |i: int| (digits[digits.len() - 1 - i] + 0x30) as u8 as char)
}

/// The first digit is what is left of ten times the others.
proof fn lemma_value_first(digits: Seq<u8>)
    requires
        digits.len() > 0,
    ensures
        value(digits) == digits[0] + 10 * value(digits.drop_first()),
    decreases digits.len(),
{
    if digits.len() == 1 {
        assert(digits.drop_first() =~= Seq::<u8>::empty());
        assert(digits.drop_last() =~= Seq::<u8>::empty());
        assert(value(digits.drop_last()) == 0);
        assert(pow10(0) == 1);
    } else {
        let n = (digits.len() - 1) as nat;
        lemma_value_first(digits.drop_last());
        let rest = digits.drop_first();
        assert(digits.drop_last().drop_first() =~= rest.drop_last());
        assert(rest.last() == digits.last());
        assert(pow10(n) == 10 * pow10((n - 1) as nat));
        let x = digits.last() as nat;
        let p = pow10((n - 1) as nat);
        assert(x * (10 * p) == 10 * (x * p)) by (nonlinear_arith);
    }
}

/// Digits are written as the number that they stand for.
proof fn lemma_written(digits: Seq<u8>)
    requires
        are_digits(digits),
    ensures
        written(digits) == decimal(value(digits)),
        value(digits) > 0,
    decreases digits.len(),
{
    lemma_value_first(digits);
    let rest = digits.drop_first();
    let low = digits[0];
    if digits.len() == 1 {
        assert(rest =~= Seq::<u8>::empty());
        assert(value(rest) == 0);
        assert(written(digits) =~= decimal(value(digits)));
    } else {
        assert(rest.last() == digits.last());
        lemma_written(rest);
        let n = value(digits);
        assert(n >= 10);
        assert(n / 10 == value(rest) && n % 10 == low as nat);
        assert(written(digits) =~= written(rest).push((low + 0x30) as u8 as char));
    }
}

/// Doubles the number that digits stand for.
fn double(digits: &mut Vec<u8>)
    requires
        are_digits(old(digits)@),
        old(digits)@.len() < usize::MAX,
    ensures
        are_digits(final(digits)@),
        value(final(digits)@) == 2 * value(old(digits)@),
        final(digits)@.len() <= old(digits)@.len() + 1,
{
    let n: usize = digits.len();
    let ghost before = digits@;
    let mut carry: u8 = 0;
    let mut i: usize = 0;
    assert(before.take(0) =~= Seq::<u8>::empty());
    while i < n
        invariant
            i <= n,
            n == digits@.len(),
            n == before.len(),
            are_digits(before),
            carry <= 1,
            forall|j: int| i <= j < n ==> digits@[j] == before[j],
            forall|j: int| 0 <= j < i ==> (#[trigger] digits@[j]) < 10,
            value(digits@.take(i as int)) + carry * pow10(i as nat) == 2 * value(
                before.take(i as int),
            ),
            i == n ==> digits@[n - 1] > 0 || carry == 1,
        decreases n - i,
    {
        let o: u8 = digits[i];
        assert(o == before[i as int] && before[i as int] < 10);
        let t: u8 = 2 * o + carry;
        let ghost now = digits@;
        digits.set(i, t % 10);
        proof {
            let p = pow10(i as nat);
            assert(digits@.take(i + 1).drop_last() =~= now.take(i as int));
            assert(before.take(i + 1).drop_last() =~= before.take(i as int));
            assert(digits@.take(i + 1).last() == t % 10);
            assert(before.take(i + 1).last() == o);
            assert(pow10((i + 1) as nat) == 10 * p);
            let low = (t % 10) as int;
            let high = (t / 10) as int;
            assert(low * p + high * (10 * p) == (2 * o + carry) * p) by (nonlinear_arith)
                requires
                    low + 10 * high == 2 * o + carry,
            ;
            assert((2 * o + carry) * p == 2 * (o * p) + carry * p) by (nonlinear_arith);
        }
        carry = t / 10;
        i += 1;
    }
    proof {
        assert(digits@.take(n as int) =~= digits@);
        assert(before.take(n as int) =~= before);
    }
    if carry > 0 {
        let ghost low = digits@;
        digits.push(carry);
        assert(digits@.drop_last() =~= low);
    }
}

/// Appends the number `m * 2^shift`.
fn push_shifted(s: &mut String, m: u64, shift: u64)
    requires
        m > 0,
        shift <= 2000,
    ensures
        final(s)@ == old(s)@ + decimal((m * pow2(shift as nat)) as nat),
{
    let mut digits: Vec<u8> = Vec::new();
    let mut rest: u64 = m;
    let ghost mut p: nat = 1;
    assert(value(digits@) == 0);
    while rest > 0
        invariant
            p == pow10(digits@.len()),
            value(digits@) + rest * p == m,
            forall|i: int| 0 <= i < digits@.len() ==> (#[trigger] digits@[i]) < 10,
            rest == 0 ==> digits@.len() > 0 && digits@.last() > 0,
            digits@.len() <= 20,
            m > 0,
            p * rest <= m,
        decreases rest,
    {
        let ghost before = digits@;
        let ghost old_p = p;
        proof {
            // The digits so far are those of a number of 64 bits.
            assert(old_p <= m) by (nonlinear_arith)
                requires
                    old_p * rest <= m,
                    rest > 0,
            ;
            lemma_pow10_grows(before.len());
        }
        digits.push((rest % 10) as u8);
        proof {
            p = 10 * p;
            assert(digits@.drop_last() =~= before);
            let low = (rest % 10) as int;
            let high = (rest / 10) as int;
            assert(low * old_p + high * (10 * old_p) == rest * old_p) by (nonlinear_arith)
                requires
                    low + 10 * high == rest,
            ;
            assert((10 * old_p) * high <= old_p * rest) by (nonlinear_arith)
                requires
                    10 * high <= rest,
                    old_p >= 0,
            ;
        }
        rest = rest / 10;
    }
    let mut i: u64 = 0;
    proof {
        lemma2_to64();
        assert(m * pow2(0) == m) by (nonlinear_arith)
            requires
                pow2(0) == 1,
        ;
    }
    while i < shift
        invariant
            i <= shift,
            shift <= 2000,
            are_digits(digits@),
            digits@.len() <= 20 + i,
            value(digits@) == m * pow2(i as nat),
        decreases shift - i,
    {
        double(&mut digits);
        proof {
            lemma_pow2_adds(1, i as nat);
            lemma2_to64();
            let a = pow2(i as nat) as int;
            assert(m * (2 * a) == 2 * (m * a)) by (nonlinear_arith);
        }
        i += 1;
    }
    proof {
        lemma_written(digits@);
    }
    let n: usize = digits.len();
    let mut k: usize = n;
    while k > 0
        invariant
            k <= n,
            n == digits@.len(),
            are_digits(digits@),
            s@ =~= old(s)@ + written(digits@).take(n - k),
        decreases k,
    {
        k -= 1;
        s.push((digits[k] + 0x30) as char);
    }
    assert(written(digits@).take(n as int) =~= written(digits@));
}

/// A power of ten has more than as many digits.
proof fn lemma_pow10_grows(n: nat)
    ensures
        n >= 20 ==> pow10(n) > u64::MAX,
        pow10(n) > 0,
    decreases n,
{
    if n > 0 {
        lemma_pow10_grows((n - 1) as nat);
    }
    if n == 20 {
        reveal_with_fuel(pow10, 21);
    }
}

/// A common factor changes nothing.
proof fn lemma_nearest_even_scaled(x: int, y: int, c: int)
    requires
        0 <= x,
        0 < y,
        0 < c,
    ensures
        nearest_even(x * c, y * c) == nearest_even(x, y),
{
    let q = x / y;
    let r = x % y;
    lemma_fundamental_div_mod(x, y);
    assert(x * c == q * (y * c) + r * c) by (nonlinear_arith)
        requires
            x == y * q + r,
    ;
    assert(0 <= r * c < y * c) by (nonlinear_arith)
        requires
            0 <= r < y,
            0 < c,
    ;
    lemma_fundamental_div_mod_converse(x * c, y * c, q, r * c);
    assert(2 * (r * c) > y * c <==> 2 * r > y) by (nonlinear_arith)
        requires
            0 < c,
    ;
    assert(2 * (r * c) == y * c <==> 2 * r == y) by (nonlinear_arith)
        requires
            0 < c,
    ;
}

/// The power of two with an exponent up to 100.
pub(crate) fn power_of_two(k: u64) -> (r: u128)
    requires
        k <= 100,
    ensures
        r == pow2(k as nat),
        0 < r <= 0x10_0000_0000_0000_0000_0000_0000,
{
    let mut r: u128 = 1;
    let mut i: u64 = 0;
    proof {
        lemma2_to64();
        lemma_pow2_adds(50, 50);
        lemma2_to64_rest();
    }
    while i < k
        invariant
            i <= k <= 100,
            r == pow2(i as nat),
            pow2(100) == 0x10_0000_0000_0000_0000_0000_0000,
        decreases k - i,
    {
        proof {
            lemma_pow2_adds(1, i as nat);
            lemma2_to64();
            if i < 100 {
                lemma_pow2_strictly_increases(i as nat, 100);
            }
        }
        r = 2 * r;
        i += 1;
    }
    proof {
        lemma_pow2_pos(k as nat);
        if k < 100 {
            lemma_pow2_strictly_increases(k as nat, 100);
        }
    }
    r
}

/// The number `m * 10^6 / 2^k`, to the nearest integer.
fn divide(m: u64, k: u64) -> (q: u128)
    requires
        m < 2 * EXPONENT,
        0 < k,
    ensures
        q == nearest_even(m * MILLION, pow2(k as nat) as int),
        q / 1_000_000 <= u64::MAX,
{
    let n: u128 = m as u128 * 1_000_000;
    assert(n < 0x1_0000_0000_0000_0000_0000);
    if k > 100 {
        proof {
            lemma_pow2_strictly_increases(100, k as nat);
            lemma_pow2_adds(50, 50);
            lemma2_to64_rest();
            lemma_fundamental_div_mod_converse(n as int, pow2(k as nat) as int, 0, n as int);
        }
        return 0;
    }
    let d: u128 = power_of_two(k);
    let q: u128 = n / d;
    let r: u128 = n % d;
    proof {
        lemma_fundamental_div_mod(n as int, d as int);
        lemma_pow2_adds(1, (k - 1) as nat);
        lemma_pow2_pos((k - 1) as nat);
        lemma2_to64();
        assert(q * 2 <= n) by (nonlinear_arith)
            requires
                n == d * q + r,
                d >= 2,
                r >= 0,
        ;
    }
    if 2 * r > d || (2 * r == d && q % 2 == 1) {
        q + 1
    } else {
        q
    }
}

/// A number with six decimals.
pub fn format_fixed6(x: Scalar) -> (s: String)
    ensures
        s@ == fixed6(x),
{
    let mut s: String = String::new();
    if x.nan() {
        push_text(&mut s, "NaN");
        assert(s@ =~= "NaN"@);
        return s;
    }
    proof {
        reveal_strlit("");
    }
    let negative: bool = x.bits >= SIGN;
    if negative {
        push_text(&mut s, "-");
    }
    let ghost sign = if negative {
        "-"@
    } else {
        ""@
    };
    assert(s@ =~= sign);
    let abs: u64 = if negative {
        x.bits - SIGN
    } else {
        x.bits
    };
    if abs == INFINITE {
        push_text(&mut s, "inf");
        return s;
    }
    let (m, e) = split(abs);
    let ghost units = x.abs_units();
    assert(units == magnitude(abs as int));
    assert(units == m * pow2(e as nat));
    if e >= 1074 {
        let shift: u64 = e - 1074;
        proof {
            let v = m * pow2(shift as nat);
            let o = one();
            lemma_pow2_adds(shift as nat, 1074);
            lemma_pow2_pos(1074);
            lemma_pow2_pos(shift as nat);
            let a = pow2(shift as nat) as int;
            assert(units * MILLION == (v * MILLION) * o) by (nonlinear_arith)
                requires
                    units == m * (a * o),
                    v == m * a,
            ;
            lemma_fundamental_div_mod_converse(units * MILLION, o, v * MILLION, 0);
            assert(v >= 0) by (nonlinear_arith)
                requires
                    v == m * a,
                    m >= 0,
                    a > 0,
            ;
            lemma_fundamental_div_mod_converse(v * MILLION, MILLION as int, v, 0);
            assert(millionths(x) == v * MILLION);
        }
        push_shifted(&mut s, m, shift);
        push_text(&mut s, ".");
        push_digits(&mut s, 0, 6);
        assert(s@ =~= fixed6(x));
        return s;
    }
    let k: u64 = 1074 - e;
    proof {
        lemma_pow2_adds(k as nat, e as nat);
        lemma_pow2_pos(e as nat);
        lemma_pow2_pos(k as nat);
        let c = pow2(e as nat) as int;
        assert(units * MILLION == (m * MILLION) * c) by (nonlinear_arith)
            requires
                units == m * c,
        ;
        lemma_nearest_even_scaled(m * MILLION, pow2(k as nat) as int, c);
    }
    let q: u128 = divide(m, k);
    assert(q == millionths(x));
    push_decimal(&mut s, (q / 1_000_000) as u64);
    push_text(&mut s, ".");
    push_digits(&mut s, (q % 1_000_000) as u64, 6);
    assert(s@ =~= fixed6(x));
    s
}

/// A number with six decimals is the nearest such to it: the magnitude moves by no more than half a
/// millionth, and of two that are as near the even one is taken.
pub proof fn law_six_decimals_are_nearest(s: Scalar)
    requires
        !s.is_nan(),
    ensures
        -one() <= 2 * (millionths(s) * one() - s.abs_units() * 1_000_000) <= one(),
        2 * (millionths(s) * one() - s.abs_units() * 1_000_000) == one() || 2 * (millionths(s)
            * one() - s.abs_units() * 1_000_000) == -one() ==> millionths(s) % 2 == 0,
{
    lemma_pow2_pos(1074);
    let x = s.abs_units() * MILLION;
    let y = one();
    let q = x / y;
    let r = x % y;
    vstd::arithmetic::div_mod::lemma_fundamental_div_mod(x, y);
    vstd::arithmetic::div_mod::lemma_mod_bound(x, y);
    assert((q + 1) * y == y * q + y) by (nonlinear_arith);
    assert(q * y == y * q) by (nonlinear_arith);
}

/// The sign stands in front of a negative number, and of nothing else; a number with the other sign
/// is written with the same digits.
pub proof fn law_sign_stands_in_front(s: Scalar)
    requires
        s.bits < SIGN,
        !s.is_nan(),
    ensures
        fixed6(s.opposite()) == "-"@ + fixed6(s),
{
    reveal_strlit("");
    reveal_strlit("-");
    let minus = s.opposite();
    assert(minus.abs_bits() == s.abs_bits());
    assert(fixed6(minus) =~= "-"@ + fixed6(s));
}

} // verus!

//! Arbitrary-precision signed decimal numbers.
//!
//! A [`BigReal`] is an integer `value` together with a `shift`, the number
//! of decimal digits to the right of the point: it stands for
//! `value / 10^shift`. Its view is the pair [`Real`], over which every
//! operation is specified.

use vstd::prelude::*;
use vstd::arithmetic::power::pow;
use vstd::arithmetic::power::lemma_pow_adds;
use vstd::arithmetic::power::lemma_pow_positive;
use crate::bytes::push_all;
use crate::bytes::push_zeros;
use crate::bytes::zeros;
use crate::integer::Integer;
use crate::integer::abs_int;
use crate::integer::trunc_div;
use crate::integer::trunc_rem;
use crate::integer::radix_digits;
use crate::integer::radix_text;
use crate::integer::digit_char;
use crate::integer::lemma_trunc_div_positive;

verus! {

/// Ten to the power of `n`.
pub open spec fn pow10(n: nat) -> int {
    pow(10, n)
}

/// The larger of two natural numbers.
pub open spec fn max_nat(a: nat, b: nat) -> nat {
    if a >= b {
        a
    } else {
        b
    }
}

/// The mathematical model of a [`BigReal`]: the number `value / 10^shift`,
/// written with `shift` digits after the point.
pub struct Real {
    /// The digits of the number, read as an integer.
    pub value: int,
    /// How many of them stand to the right of the point.
    pub shift: nat,
}

impl Real {
    /// The integer `value` as a number without fractional digits.
    pub open spec fn integer(value: int) -> Real {
        Real { value, shift: 0 }
    }

    /// The integer that stands for this number when it is written with
    /// `shift` fractional digits. More digits are filled with zeros; where
    /// there are fewer, the rest is cut off, toward zero.
    pub open spec fn aligned(self, shift: nat) -> int {
        if shift >= self.shift {
            self.value * pow10((shift - self.shift) as nat)
        } else {
            trunc_div(self.value, pow10((self.shift - shift) as nat))
        }
    }

    /// This number written with `shift` fractional digits.
    pub open spec fn rescale(self, shift: nat) -> Real {
        Real { value: self.aligned(shift), shift }
    }

    /// The number with its fractional part cut off.
    pub open spec fn trunc(self) -> int {
        self.aligned(0)
    }

    /// Whether two numbers are equal in value, whatever their shifts.
    pub open spec fn same_number(self, other: Real) -> bool {
        let m = max_nat(self.shift, other.shift);
        self.aligned(m) == other.aligned(m)
    }

    /// Whether this number is below the other in value.
    pub open spec fn less_than(self, other: Real) -> bool {
        let m = max_nat(self.shift, other.shift);
        self.aligned(m) < other.aligned(m)
    }

    /// The sum, written with the larger of the two shifts.
    pub open spec fn add(self, other: Real) -> Real {
        let m = max_nat(self.shift, other.shift);
        Real { value: self.aligned(m) + other.aligned(m), shift: m }
    }

    /// The difference, written with the larger of the two shifts.
    pub open spec fn sub(self, other: Real) -> Real {
        let m = max_nat(self.shift, other.shift);
        Real { value: self.aligned(m) - other.aligned(m), shift: m }
    }

    /// The product; its shift is the sum of the two shifts.
    pub open spec fn mul(self, other: Real) -> Real {
        Real { value: self.value * other.value, shift: self.shift + other.shift }
    }

    /// The quotient with `scale` fractional digits, cut off toward zero.
    pub open spec fn div(self, other: Real, scale: nat) -> Real
        recommends
            other.value != 0,
    {
        let m = max_nat(self.shift, other.shift);
        Real { value: trunc_div(self.aligned(m + scale), other.aligned(m)), shift: scale }
    }

    /// The remainder that the division with `scale` fractional digits
    /// leaves: the dividend less the divisor times the quotient.
    pub open spec fn rem(self, other: Real, scale: nat) -> Real
        recommends
            other.value != 0,
    {
        self.sub(other.mul(self.div(other, scale)))
    }

    /// This number multiplied by itself `n` times over; the shifts add up.
    pub open spec fn power(self, n: nat) -> Real {
        Real { value: pow(self.value, n), shift: self.shift * n }
    }

    /// This number to the power of the integer part of `exponent`. A
    /// negative exponent gives one divided by the power to its magnitude,
    /// with `scale` fractional digits; the exponent zero gives one.
    pub open spec fn pow(self, exponent: Real, scale: nat) -> Real
        recommends
            exponent.trunc() < 0 ==> self.value != 0,
    {
        let e = exponent.trunc();
        if e == 0 {
            Real::integer(1)
        } else if e > 0 {
            self.power(e as nat)
        } else {
            Real::integer(1).div(self.power((-e) as nat), scale)
        }
    }

    /// The square root as Newton's iteration finds it, with the larger of
    /// `scale` and the number's own shift as the number of fractional
    /// digits. The iteration starts at the number itself and works on the
    /// digits as integers: see [`newton_sqrt`]. The root of zero is zero.
    pub open spec fn sqrt(self, scale: nat) -> Real
        recommends
            self.value >= 0,
    {
        if self.value == 0 {
            self
        } else {
            let s = max_nat(self.shift, scale);
            let n = self.aligned(s);
            Real { value: newton_sqrt(n * pow10(s), n), shift: s }
        }
    }

    /// The power of `self` to `exponent` modulo `modulus`, all three cut
    /// off to integers. The remainder has the sign of the power. Modulo one
    /// everything is zero; otherwise the power to zero is one.
    pub open spec fn modexp(self, exponent: Real, modulus: Real) -> Real
        recommends
            exponent.value >= 0,
            modulus.trunc() != 0,
    {
        let e = exponent.trunc();
        let m = modulus.trunc();
        Real::integer(
            if m == 1 {
                0
            } else if e == 0 {
                1
            } else {
                trunc_rem(pow(self.trunc(), e as nat), m)
            },
        )
    }

    /// The number written in the given radix, with lower-case letters for
    /// the digits from ten on.
    ///
    /// A negative number begins with a minus sign. A number without
    /// fractional digits is written as a whole number. In radix ten the
    /// point is set into the decimal digits. In another radix the integer
    /// part is written, unless it is zero, then the point, then the digits
    /// of the fraction by long division: see [`fraction_text`].
    pub open spec fn text(self, radix: nat) -> Seq<u8> {
        let sign = if self.value < 0 {
            seq![45u8]
        } else {
            seq![]
        };
        let magnitude = abs_int(self.value) as nat;
        if self.shift == 0 {
            sign + whole_text(magnitude, radix)
        } else if radix == 10 {
            sign + pointed_text(radix_digits(magnitude, 10), self.shift)
        } else {
            let unit = pow10(self.shift) as nat;
            let whole = magnitude / unit;
            sign + (if whole == 0 {
                seq![]
            } else {
                whole_text(whole, radix)
            }) + seq![46u8] + fraction_text((magnitude % unit) * radix, unit, radix, radix, true)
        }
    }

    /// The absolute value.
    pub open spec fn abs(self) -> Real {
        Real { value: abs_int(self.value), shift: self.shift }
    }

    /// The same number with as small a shift as keeps every digit: zeros
    /// at the end of the fraction are dropped.
    pub open spec fn simplified(self) -> Real
        decreases self.shift,
    {
        if self.shift > 0 && self.value % 10 == 0 {
            Real { value: self.value / 10, shift: (self.shift - 1) as nat }.simplified()
        } else {
            self
        }
    }
}

/// Ten to a power is positive.
pub proof fn lemma_pow10_positive(n: nat)
    ensures
        pow10(n) > 0,
{
    lemma_pow_positive(10, n);
}

/// Ten to the next power is ten times the power.
pub proof fn lemma_pow10_step(n: nat)
    ensures
        pow10(0) == 1,
        pow10(n + 1) == 10 * pow10(n),
{
    reveal(pow);
}

/// One step of Newton's iteration for the square root of `m`, on integers.
pub open spec fn newton_step(m: int, x: int) -> int {
    (x + m / x) / 2
}

/// What gets smaller from one step of the iteration to the next: the
/// approximation itself, once it is not below the root.
pub open spec fn newton_rank(m: int, x: int) -> int {
    if (x + 1) * (x + 1) > m {
        x
    } else {
        m + 2
    }
}

/// Newton's iteration for the square root of `m` from the approximation
/// `x`, on integers: it ends with the first step that moves the
/// approximation by one at most, and gives what that step arrives at.
pub open spec fn newton_sqrt(m: int, x: int) -> int
    decreases newton_rank(m, x),
    when m > 0 && x > 0
    via newton_sqrt_decreases
{
    let next = newton_step(m, x);
    if abs_int(x - next) <= 1 {
        next
    } else {
        newton_sqrt(m, next)
    }
}

#[via_fn]
proof fn newton_sqrt_decreases(m: int, x: int) {
    lemma_newton_step(m, x);
}

/// What one step of Newton's iteration does: it arrives above zero and not
/// below the root; from above the root it goes down, and from the root it
/// moves by one at most.
pub proof fn lemma_newton_step(m: int, x: int)
    requires
        m > 0,
        x > 0,
    ensures
        newton_step(m, x) > 0,
        (newton_step(m, x) + 1) * (newton_step(m, x) + 1) > m,
        abs_int(x - newton_step(m, x)) > 1 ==> 0 <= newton_rank(m, newton_step(m, x))
            < newton_rank(m, x),
{
    let q = m / x;
    let next = (x + q) / 2;
    vstd::arithmetic::div_mod::lemma_fundamental_div_mod(m, x);
    vstd::arithmetic::div_mod::lemma_mod_bound(m, x);
    vstd::arithmetic::div_mod::lemma_div_pos_is_pos(m, x);
    let r = m % x;
    assert(m == x * q + r);
    assert(q >= 0);
    assert(2 * next >= x + q - 1 && 2 * next <= x + q);
    assert((next + 1) * (next + 1) > m) by (nonlinear_arith)
        requires
            m == x * q + r,
            0 <= r < x,
            q >= 0,
            2 * next >= x + q - 1,
    ;
    assert(next > 0) by (nonlinear_arith)
        requires
            (next + 1) * (next + 1) > m,
            m > 0,
            next >= 0,
    ;
    if abs_int(x - next) > 1 {
        if (x + 1) * (x + 1) > m {
            if x * x > m {
                assert(q < x) by (nonlinear_arith)
                    requires
                        m == x * q + r,
                        r >= 0,
                        x > 0,
                        x * x > m,
                ;
            } else {
                assert(q >= x) by (nonlinear_arith)
                    requires
                        m == x * q + r,
                        r < x,
                        x > 0,
                        x * x <= m,
                ;
                assert(q <= x + 2) by (nonlinear_arith)
                    requires
                        m == x * q + r,
                        r >= 0,
                        x > 0,
                        (x + 1) * (x + 1) > m,
                ;
            }
        } else {
            assert(q <= m) by (nonlinear_arith)
                requires
                    m == x * q + r,
                    r >= 0,
                    x > 0,
                    q >= 0,
            ;
            assert(x < m) by (nonlinear_arith)
                requires
                    (x + 1) * (x + 1) <= m,
                    x > 0,
            ;
        }
    }
}

/// What Newton's iteration arrives at is the square root but for one in
/// the last place: the root lies between one below it and one above.
pub proof fn lemma_newton_sqrt_is_close(m: int, x: int)
    requires
        m > 0,
        x > 0,
    ensures
        newton_sqrt(m, x) > 0,
        (newton_sqrt(m, x) - 1) * (newton_sqrt(m, x) - 1) <= m,
        m < (newton_sqrt(m, x) + 1) * (newton_sqrt(m, x) + 1),
    decreases newton_rank(m, x),
{
    let next = newton_step(m, x);
    lemma_newton_step(m, x);
    if abs_int(x - next) <= 1 {
        let q = m / x;
        vstd::arithmetic::div_mod::lemma_fundamental_div_mod(m, x);
        vstd::arithmetic::div_mod::lemma_mod_bound(m, x);
        let rest = m % x;
        assert(q >= 2 * next - x);
        assert(m >= (2 * next - x) * x) by (nonlinear_arith)
            requires
                m == x * q + rest,
                rest >= 0,
                q >= 2 * next - x,
                x > 0,
        ;
        let d = x - next;
        assert((2 * next - x) * x == next * next - d * d) by (nonlinear_arith)
            requires
                d == x - next,
        ;
        assert(d * d <= 1) by (nonlinear_arith)
            requires
                -1 <= d <= 1,
        ;
        assert((next - 1) * (next - 1) <= next * next - 1) by (nonlinear_arith)
            requires
                next >= 1,
        ;
    } else {
        lemma_newton_sqrt_is_close(m, next);
    }
}

/// The square root that is computed is the square root but for one in its
/// last digit: the number, written with twice the digits of the root, lies
/// between the squares of the root less one and plus one in that digit.
pub proof fn lemma_sqrt_is_close(a: Real, scale: nat)
    requires
        a.value > 0,
    ensures
        ({
            let root = a.sqrt(scale);
            let s = max_nat(a.shift, scale);
            &&& root.shift == s
            &&& root.value > 0
            &&& (root.value - 1) * (root.value - 1) <= a.aligned(2 * s)
            &&& a.aligned(2 * s) < (root.value + 1) * (root.value + 1)
        }),
{
    let s = max_nat(a.shift, scale);
    let n = a.aligned(s);
    lemma_aligned_scales(a, s, s);
    lemma_pow10_positive((s - a.shift) as nat);
    lemma_pow10_positive(s);
    assert(n > 0) by (nonlinear_arith)
        requires
            n == a.value * pow10((s - a.shift) as nat),
            a.value > 0,
            pow10((s - a.shift) as nat) > 0,
    ;
    assert(n * pow10(s) > 0) by (nonlinear_arith)
        requires
            n > 0,
            pow10(s) > 0,
    ;
    lemma_newton_sqrt_is_close(n * pow10(s), n);
}

/// The remainder of a truncating division keeps the sign of the dividend
/// and is, in magnitude, the remainder of the magnitudes.
pub proof fn lemma_trunc_rem_magnitude(a: int, m: int)
    requires
        m != 0,
    ensures
        abs_int(trunc_rem(a, m)) == abs_int(a) % abs_int(m),
        a >= 0 ==> trunc_rem(a, m) >= 0,
        a <= 0 ==> trunc_rem(a, m) <= 0,
{
    let big = abs_int(m);
    let mag = abs_int(a);
    vstd::arithmetic::div_mod::lemma_fundamental_div_mod(mag, big);
    vstd::arithmetic::div_mod::lemma_mod_bound(mag, big);
    let q = mag / big;
    assert(m * (-q) == -(m * q) && (-m) * q == -(m * q) && m * q == q * m) by (nonlinear_arith);
    assert(big * q == q * big) by (nonlinear_arith);
}

/// The remainder of a product is the remainder of the product of the
/// remainders.
pub proof fn lemma_trunc_rem_mul(x: int, y: int, m: int)
    requires
        m != 0,
    ensures
        trunc_rem(x * y, m) == trunc_rem(trunc_rem(x, m) * trunc_rem(y, m), m),
{
    let big = abs_int(m);
    let tx = trunc_rem(x, m);
    let ty = trunc_rem(y, m);
    lemma_trunc_rem_magnitude(x, m);
    lemma_trunc_rem_magnitude(y, m);
    lemma_trunc_rem_magnitude(x * y, m);
    lemma_trunc_rem_magnitude(tx * ty, m);
    assert(abs_int(x * y) == abs_int(x) * abs_int(y)) by (nonlinear_arith);
    assert(abs_int(tx * ty) == abs_int(tx) * abs_int(ty)) by (nonlinear_arith);
    vstd::arithmetic::div_mod::lemma_mul_mod_noop(abs_int(x), abs_int(y), big);
    // The magnitudes agree; so do the signs, unless the remainder is zero.
    assert(abs_int(trunc_rem(x * y, m)) == abs_int(trunc_rem(tx * ty, m)));
    if tx == 0 || ty == 0 {
        assert(tx * ty == 0) by (nonlinear_arith)
            requires
                tx == 0 || ty == 0,
        ;
        assert(abs_int(tx) * abs_int(ty) == 0) by (nonlinear_arith)
            requires
                tx == 0 || ty == 0,
        ;
        vstd::arithmetic::div_mod::lemma_small_mod(0, big as nat);
    } else {
        assert((x * y >= 0) == (tx * ty >= 0)) by (nonlinear_arith)
            requires
                tx != 0,
                ty != 0,
                x >= 0 ==> tx >= 0,
                x <= 0 ==> tx <= 0,
                y >= 0 ==> ty >= 0,
                y <= 0 ==> ty <= 0,
        ;
        assert((x * y <= 0) ==> (tx * ty <= 0)) by (nonlinear_arith)
            requires
                tx != 0,
                ty != 0,
                x >= 0 ==> tx >= 0,
                x <= 0 ==> tx <= 0,
                y >= 0 ==> ty >= 0,
                y <= 0 ==> ty <= 0,
        ;
    }
}

/// A remainder is its own remainder.
pub proof fn lemma_trunc_rem_twice(x: int, m: int)
    requires
        m != 0,
    ensures
        trunc_rem(trunc_rem(x, m), m) == trunc_rem(x, m),
{
    let big = abs_int(m);
    let t = trunc_rem(x, m);
    lemma_trunc_rem_magnitude(x, m);
    lemma_trunc_rem_magnitude(t, m);
    vstd::arithmetic::div_mod::lemma_mod_bound(abs_int(x), big);
    vstd::arithmetic::div_mod::lemma_small_mod(abs_int(t) as nat, big as nat);
}

/// The remainder of a power is the remainder of the power of the
/// remainder.
pub proof fn lemma_trunc_rem_pow(a: int, n: nat, m: int)
    requires
        m != 0,
    ensures
        trunc_rem(pow(trunc_rem(a, m), n), m) == trunc_rem(pow(a, n), m),
    decreases n,
{
    reveal(pow);
    if n > 0 {
        let t = trunc_rem(a, m);
        let rest = (n - 1) as nat;
        lemma_trunc_rem_pow(a, rest, m);
        lemma_trunc_rem_mul(t, pow(t, rest), m);
        lemma_trunc_rem_mul(a, pow(a, rest), m);
        lemma_trunc_rem_twice(a, m);
    }
}

/// A power to an even exponent is the power of the square to half of it,
/// and a power to an odd exponent has one factor more.
pub proof fn lemma_pow_halves(a: int, n: nat)
    ensures
        n % 2 == 0 ==> pow(a, n) == pow(a * a, n / 2),
        n % 2 == 1 ==> pow(a, n) == a * pow(a * a, n / 2),
{
    let half = n / 2;
    vstd::arithmetic::power::lemma_pow_multiplies(a, 2, half);
    vstd::arithmetic::power::lemma_square_is_pow2(a);
    assert(2 * half == if n % 2 == 0 {
        n as int
    } else {
        n - 1
    });
    if n % 2 == 1 {
        reveal(pow);
    }
}

/// How many decimal digits the digits of a radix above 16 are written with:
/// as many as the largest of them needs.
pub open spec fn group_width(radix: nat) -> nat {
    radix_digits((radix - 1) as nat, 10).len()
}

/// One digit of a number in the given radix. Up to radix 16 it is a single
/// character, a letter from ten on. Above that it is the digit's value in
/// decimal, filled up with zeros in front to the width of the radix.
pub open spec fn digit_text(d: nat, radix: nat) -> Seq<u8> {
    if radix <= 16 {
        seq![digit_char(d as int)]
    } else {
        let text = radix_digits(d, 10);
        zeros(
            if group_width(radix) > text.len() {
                (group_width(radix) - text.len()) as nat
            } else {
                0
            },
        ) + text
    }
}

/// The digits of a whole number in a radix above 16, most significant
/// first, each after a space.
pub open spec fn grouped_digits(n: nat, radix: nat) -> Seq<u8>
    decreases n,
    via grouped_digits_decreases
{
    let last = seq![32u8] + digit_text(n % radix, radix);
    if radix < 2 || n / radix == 0 {
        last
    } else {
        grouped_digits(n / radix, radix) + last
    }
}

#[via_fn]
proof fn grouped_digits_decreases(n: nat, radix: nat) {
    if !(radix < 2 || n / radix == 0) {
        assert(n / radix < n) by (nonlinear_arith)
            requires
                radix >= 2,
                n / radix != 0,
        ;
    }
}

/// A whole number in the given radix: up to 16 in the usual way, above
/// that in groups of decimal digits.
pub open spec fn whole_text(n: nat, radix: nat) -> Seq<u8> {
    if radix <= 16 {
        radix_digits(n, radix)
    } else {
        grouped_digits(n, radix)
    }
}

/// The digits of a fraction by long division. `part / unit` is the next
/// digit, and what is left of `part` is carried on, times the radix. The
/// digits end with the first whose place value, `1 / place`, is no larger
/// than `1 / unit`. Above radix 16 a space stands between two digits.
pub open spec fn fraction_text(part: nat, unit: nat, place: nat, radix: nat, first: bool) -> Seq<u8>
    decreases
            (if place >= unit {
                0
            } else {
                unit - place
            }),
    when radix >= 2 && place >= 1
    via fraction_text_decreases
{
    let digit = (if radix > 16 && !first {
        seq![32u8]
    } else {
        seq![]
    }) + digit_text(part / unit, radix);
    if place >= unit {
        digit
    } else {
        digit + fraction_text(((part % unit) * radix) as nat, unit, place * radix, radix, false)
    }
}

#[via_fn]
proof fn fraction_text_decreases(part: nat, unit: nat, place: nat, radix: nat, first: bool) {
    assert(place * radix > place) by (nonlinear_arith)
        requires
            radix >= 2,
            place >= 1,
    ;
}

/// A decimal fraction: the digits `digits` with the point `shift` places
/// from their end, and zeros after the point where the digits are too few.
pub open spec fn pointed_text(digits: Seq<u8>, shift: nat) -> Seq<u8> {
    if digits.len() < shift {
        seq![46u8] + zeros((shift - digits.len()) as nat) + digits
    } else {
        digits.subrange(0, digits.len() - shift) + seq![46u8] + digits.subrange(
            digits.len() - shift,
            digits.len() as int,
        )
    }
}

/// The digits of some numbers, the last of them first, each after a space.
pub open spec fn groups_backwards(digits: Seq<u64>, radix: nat) -> Seq<u8>
    decreases digits.len(),
{
    if digits.len() == 0 {
        seq![]
    } else {
        seq![32u8] + digit_text(digits.last() as nat, radix) + groups_backwards(
            digits.drop_last(),
            radix,
        )
    }
}

/// The first power of a number is the number.
pub proof fn lemma_power_one(a: Real)
    ensures
        a.power(1) == a,
{
    vstd::arithmetic::power::lemma_pow1(a.value);
}

/// The product of two powers of a number is the power to the sum.
pub proof fn lemma_power_adds(a: Real, m: nat, n: nat)
    ensures
        a.power(m).mul(a.power(n)) == a.power(m + n),
{
    lemma_pow_adds(a.value, m, n);
    assert(a.shift * m + a.shift * n == a.shift * (m + n)) by (nonlinear_arith);
}

/// A power of a number other than zero is not zero.
pub proof fn lemma_pow_nonzero(a: int, n: nat)
    requires
        a != 0,
    ensures
        pow(a, n) != 0,
    decreases n,
{
    reveal(pow);
    if n > 0 {
        lemma_pow_nonzero(a, (n - 1) as nat);
        assert(a * pow(a, (n - 1) as nat) != 0) by (nonlinear_arith)
            requires
                a != 0,
                pow(a, (n - 1) as nat) != 0,
        ;
    }
}

/// A shift that fits when it is taken `total` times fits when it is taken
/// fewer times.
proof fn lemma_power_fits(shift: nat, part: nat, total: nat, rest: int)
    requires
        shift * total <= u32::MAX,
        rest >= 1,
        part * rest <= total,
    ensures
        shift * part <= u32::MAX,
{
    assert(shift * part <= shift * total) by (nonlinear_arith)
        requires
            rest >= 1,
            part * rest <= total,
    ;
}

/// The quotient with `scale` fractional digits, times the divisor, plus the
/// remainder that the division leaves, is the dividend again.
pub proof fn lemma_div_rem_recompose(a: Real, b: Real, scale: nat)
    requires
        b.value != 0,
    ensures
        a.div(b, scale).shift == scale,
        a.div(b, scale).mul(b).add(a.rem(b, scale)).same_number(a),
{
    let q = a.div(b, scale);
    let product = b.mul(q);
    let r = a.sub(product);
    let m = max_nat(a.shift, product.shift);
    // The remainder and the product both have the shift `m`, and the
    // remainder is the dividend less the product, both written to `m`
    // digits.
    assert(q.mul(b).value == product.value) by (nonlinear_arith)
        requires
            q.mul(b).value == q.value * b.value,
            product.value == b.value * q.value,
    ;
    assert(q.mul(b).shift == product.shift);
    let sum = q.mul(b).add(r);
    assert(sum.shift == m);
    lemma_pow10_step(0);
    assert(r.aligned(m) == r.value * 1);
    assert(sum.value == a.aligned(m));
    assert(sum.aligned(m) == sum.value * 1);
}

/// A number with the zeros at the end of its fraction dropped has the same
/// value and no more digits, and no digit more can be dropped from it.
pub proof fn lemma_simplified(a: Real)
    ensures
        a.simplified().same_number(a),
        a.simplified().shift <= a.shift,
        a.simplified().shift == 0 || a.simplified().value % 10 != 0,
    decreases a.shift,
{
    lemma_pow10_step(0);
    if a.shift > 0 && a.value % 10 == 0 {
        let b = Real { value: a.value / 10, shift: (a.shift - 1) as nat };
        lemma_simplified(b);
        let c = b.simplified();
        // c is b written with fewer digits, and b is a with one digit less.
        let k = (b.shift - c.shift) as nat;
        lemma_pow10_step(k);
        assert(c.aligned(b.shift) == b.aligned(b.shift));
        assert(b.aligned(b.shift) == b.value * 1);
        assert(c.aligned(a.shift) == c.value * pow10(k + 1));
        assert(c.value * pow10(k + 1) == (c.value * pow10(k)) * 10) by (nonlinear_arith)
            requires
                pow10(k + 1) == 10 * pow10(k),
        ;
        assert(a.aligned(a.shift) == a.value * 1);
    } else {
        assert(a.aligned(a.shift) == a.value * 1);
    }
}

/// The integer part of a number that is not negative is not negative, and
/// that of a number that is not positive is not positive.
pub proof fn lemma_trunc_sign(a: Real)
    ensures
        a.value >= 0 ==> a.trunc() >= 0,
        a.value <= 0 ==> a.trunc() <= 0,
{
    lemma_pow10_step(0);
    lemma_pow10_positive(a.shift);
    if a.shift > 0 {
        let p = pow10(a.shift);
        if a.value >= 0 {
            vstd::arithmetic::div_mod::lemma_div_pos_is_pos(a.value, p);
        } else {
            vstd::arithmetic::div_mod::lemma_div_pos_is_pos(-a.value, p);
        }
    } else {
        assert(a.trunc() == a.value * 1);
    }
}

/// A number written with `k` digits more than `m`, which are enough for
/// all its digits, is the number written with `m` digits, times ten to the
/// power of `k`.
pub proof fn lemma_aligned_scales(a: Real, m: nat, k: nat)
    requires
        m >= a.shift,
    ensures
        a.aligned(m + k) == a.aligned(m) * pow10(k),
{
    lemma_pow_adds(10, (m - a.shift) as nat, k);
    assert(a.value * (pow10((m - a.shift) as nat) * pow10(k)) == (a.value * pow10(
        (m - a.shift) as nat,
    )) * pow10(k)) by (nonlinear_arith);
}

/// Two numbers are equal in value exactly if they are the same integer
/// when both are written with `m` digits, which are enough for all the
/// digits of both.
pub proof fn lemma_same_number_at(a: Real, b: Real, m: nat)
    requires
        m >= a.shift,
        m >= b.shift,
    ensures
        a.same_number(b) <==> a.aligned(m) == b.aligned(m),
        a.less_than(b) <==> a.aligned(m) < b.aligned(m),
{
    let least = max_nat(a.shift, b.shift);
    let k = (m - least) as nat;
    lemma_aligned_scales(a, least, k);
    lemma_aligned_scales(b, least, k);
    lemma_pow10_positive(k);
    let x = a.aligned(least);
    let y = b.aligned(least);
    let p = pow10(k);
    assert((x == y) <==> (x * p == y * p)) by (nonlinear_arith)
        requires
            p > 0,
    ;
    assert((x < y) <==> (x * p < y * p)) by (nonlinear_arith)
        requires
            p > 0,
    ;
}

/// To be equal in value holds of every number and itself, of two numbers
/// in both orders, and of the first and the last of three where it holds of
/// each with the one in the middle.
pub proof fn lemma_same_number_is_equivalence(a: Real, b: Real, c: Real)
    ensures
        a.same_number(a),
        a.same_number(b) == b.same_number(a),
        a.same_number(b) && b.same_number(c) ==> a.same_number(c),
{
    let m = max_nat(max_nat(a.shift, b.shift), c.shift);
    lemma_same_number_at(a, b, m);
    lemma_same_number_at(b, c, m);
    lemma_same_number_at(a, c, m);
}

/// Numbers are in order by their values: of two numbers, one is below the
/// other or they are equal in value, and never two of these at once; and
/// what is below a number is below all that the number is below.
pub proof fn lemma_less_than_is_order(a: Real, b: Real, c: Real)
    ensures
        a.less_than(b) || b.less_than(a) || a.same_number(b),
        !(a.less_than(b) && b.less_than(a)),
        !(a.less_than(b) && a.same_number(b)),
        a.less_than(b) && b.less_than(c) ==> a.less_than(c),
{
    let m = max_nat(max_nat(a.shift, b.shift), c.shift);
    lemma_same_number_at(a, b, m);
    lemma_same_number_at(b, a, m);
    lemma_same_number_at(b, c, m);
    lemma_same_number_at(a, c, m);
}

/// Two numbers that are equal in value, and from neither of which a zero
/// can be dropped, are the same digits with the same shift.
pub proof fn lemma_shortest_form_is_unique(a: Real, b: Real)
    requires
        a.same_number(b),
        a.shift == 0 || a.value % 10 != 0,
        b.shift == 0 || b.value % 10 != 0,
    ensures
        a == b,
{
    lemma_pow10_step(0);
    if a.shift > b.shift {
        let k = (a.shift - b.shift - 1) as nat;
        lemma_pow10_step(k);
        assert(a.value * 1 == b.value * pow10(k + 1));
        assert(b.value * (10 * pow10(k)) == (b.value * pow10(k)) * 10) by (nonlinear_arith);
        vstd::arithmetic::div_mod::lemma_mod_multiples_basic(b.value * pow10(k), 10);
    } else if b.shift > a.shift {
        let k = (b.shift - a.shift - 1) as nat;
        lemma_pow10_step(k);
        assert(b.value * 1 == a.value * pow10(k + 1));
        assert(a.value * (10 * pow10(k)) == (a.value * pow10(k)) * 10) by (nonlinear_arith);
        vstd::arithmetic::div_mod::lemma_mod_multiples_basic(a.value * pow10(k), 10);
    } else {
        assert(a.value * 1 == b.value * 1);
    }
}

/// Two numbers are equal in value exactly if they are the same once the
/// zeros at the end of their fractions are dropped.
pub proof fn lemma_same_number_by_shortest_form(a: Real, b: Real)
    ensures
        a.same_number(b) <==> a.simplified() == b.simplified(),
{
    lemma_simplified(a);
    lemma_simplified(b);
    lemma_same_number_is_equivalence(a.simplified(), a, b);
    lemma_same_number_is_equivalence(a, b, b.simplified());
    lemma_same_number_is_equivalence(b, b.simplified(), b);
    lemma_same_number_is_equivalence(a.simplified(), b, b.simplified());
    lemma_same_number_is_equivalence(a.simplified(), a, b.simplified());
    lemma_same_number_is_equivalence(a, a.simplified(), b);
    lemma_same_number_is_equivalence(a, b.simplified(), b);
    if a.same_number(b) {
        lemma_shortest_form_is_unique(a.simplified(), b.simplified());
    }
}

/// An arbitrary-precision signed decimal number.
#[derive(Debug)]
pub struct BigReal {
    shift: u32,
    value: Integer,
}

impl View for BigReal {
    type V = Real;

    closed spec fn view(&self) -> Real {
        Real { value: self.value@, shift: self.shift as nat }
    }
}

impl Clone for BigReal {
    fn clone(&self) -> (r: Self)
        ensures
            r@ == self@,
    {
        BigReal { shift: self.shift, value: self.value.clone() }
    }
}

/// Ten to the power of `n`.
fn power_of_ten(n: u64) -> (r: Integer)
    ensures
        r@ == pow10(n as nat),
{
    let ten = Integer::from_u64(10);
    let mut r = Integer::from_u64(1);
    let mut i: u64 = 0;
    proof {
        lemma_pow10_step(0);
    }
    while i < n
        invariant
            i <= n,
            ten@ == 10,
            r@ == pow10(i as nat),
        decreases n - i,
    {
        proof {
            lemma_pow10_step(i as nat);
        }
        r = r.mul(&ten);
        i += 1;
    }
    r
}

/// The integer times ten to the power of `n`.
fn shifted_up(value: &Integer, n: u64) -> (r: Integer)
    ensures
        r@ == value@ * pow10(n as nat),
{
    if n == 0 {
        proof {
            lemma_pow10_step(0);
        }
        value.clone()
    } else {
        value.mul(&power_of_ten(n))
    }
}

/// The integer divided by ten to the power of `n`, cut off toward zero.
fn shifted_down(value: &Integer, n: u64) -> (r: Integer)
    ensures
        r@ == trunc_div(value@, pow10(n as nat)),
{
    proof {
        lemma_pow10_positive(n as nat);
    }
    let (quotient, _remainder) = value.div_rem(&power_of_ten(n));
    quotient
}

/// Appends one digit of a number in the given radix; `width` is the
/// number of decimal digits that a digit of a radix above 16 takes.
fn push_digit(out: &mut Vec<u8>, d: u64, radix: u32, width: usize)
    requires
        radix >= 2,
        d < radix,
        width == group_width(radix as nat),
    ensures
        final(out)@ == old(out)@ + digit_text(d as nat, radix as nat),
{
    if radix <= 16 {
        let c: u8 = if d < 10 {
            (48 + d) as u8
        } else {
            (87 + d) as u8
        };
        out.push(c);
        assert(out@ =~= old(out)@ + digit_text(d as nat, radix as nat));
    } else {
        let text = Integer::from_u64(d).to_str_radix(10);
        let fill = if width > text.len() {
            width - text.len()
        } else {
            0
        };
        push_zeros(out, fill);
        push_all(out, &text);
        assert(out@ =~= old(out)@ + digit_text(d as nat, radix as nat));
    }
}

/// The width that [`push_digit`] needs.
fn digit_width(radix: u32) -> (r: usize)
    requires
        radix >= 2,
    ensures
        r == group_width(radix as nat),
{
    Integer::from_u64((radix - 1) as u64).to_str_radix(10).len()
}

/// Appends a whole number, which must not be negative, in the given radix.
fn push_whole(out: &mut Vec<u8>, n: &Integer, radix: u32, width: usize)
    requires
        radix >= 2,
        n@ >= 0,
        width == group_width(radix as nat),
    ensures
        final(out)@ == old(out)@ + whole_text(n@ as nat, radix as nat),
{
    if radix <= 16 {
        let text = n.to_str_radix(radix);
        push_all(out, &text);
        return ;
    }
    let base = Integer::from_u64(radix as u64);
    let mut digits: Vec<u64> = Vec::new();
    let mut rest = n.clone();
    let mut done = false;
    while !done
        invariant
            radix > 16,
            base@ == radix,
            rest@ >= 0,
            forall|i: int| 0 <= i < digits.len() ==> digits[i] < radix,
            !done ==> grouped_digits(n@ as nat, radix as nat) == grouped_digits(
                rest@ as nat,
                radix as nat,
            ) + groups_backwards(digits@, radix as nat),
            done ==> grouped_digits(n@ as nat, radix as nat) == groups_backwards(
                digits@,
                radix as nat,
            ),
        decreases
                (if done {
                    0
                } else {
                    rest@ + 1
                }),
    {
        proof {
            lemma_trunc_div_positive(rest@, radix as int);
            vstd::arithmetic::div_mod::lemma_mod_bound(rest@, radix as int);
            vstd::arithmetic::div_mod::lemma_div_pos_is_pos(rest@, radix as int);
        }
        let (quotient, remainder) = rest.div_rem(&base);
        let d = match remainder.to_u64() {
            Some(d) => d,
            None => 0,
        };
        let ghost before = digits@;
        digits.push(d);
        proof {
            assert(digits@.drop_last() =~= before);
            assert(groups_backwards(digits@, radix as nat) == seq![32u8] + digit_text(
                d as nat,
                radix as nat,
            ) + groups_backwards(before, radix as nat));
            if quotient@ != 0 {
                assert(quotient@ < rest@) by (nonlinear_arith)
                    requires
                        quotient@ == rest@ / (radix as int),
                        quotient@ != 0,
                        rest@ >= 0,
                        radix >= 2,
                ;
                assert(grouped_digits(n@ as nat, radix as nat) =~= grouped_digits(
                    quotient@ as nat,
                    radix as nat,
                ) + groups_backwards(digits@, radix as nat));
            } else {
                assert(grouped_digits(n@ as nat, radix as nat) =~= groups_backwards(
                    digits@,
                    radix as nat,
                ));
            }
        }
        if quotient.is_zero() {
            done = true;
        } else {
            rest = quotient;
        }
    }
    let mut i: usize = digits.len();
    proof {
        assert(digits@.take(i as int) =~= digits@);
    }
    while i > 0
        invariant
            radix > 16,
            width == group_width(radix as nat),
            i <= digits.len(),
            forall|j: int| 0 <= j < digits.len() ==> digits[j] < radix,
            old(out)@ + groups_backwards(digits@, radix as nat) == out@ + groups_backwards(
                digits@.take(i as int),
                radix as nat,
            ),
        decreases i,
    {
        let ghost before = out@;
        proof {
            assert(digits@.take(i as int).drop_last() =~= digits@.take(i - 1));
            assert(digits@.take(i as int).last() == digits[i - 1]);
        }
        out.push(32);
        push_digit(out, digits[i - 1], radix, width);
        i -= 1;
        proof {
            assert(out@ + groups_backwards(digits@.take(i as int), radix as nat) =~= before
                + groups_backwards(digits@.take(i + 1), radix as nat));
        }
    }
    proof {
        assert(digits@.take(0) =~= Seq::<u64>::empty());
        assert(digits@.take(digits.len() as int) =~= digits@);
        assert(out@ =~= old(out)@ + groups_backwards(digits@, radix as nat));
    }
}

impl BigReal {
    /// The digits of the number, read as an integer.
    pub fn value(&self) -> (r: &Integer)
        ensures
            r@ == self@.value,
    {
        &self.value
    }

    /// An unsigned machine integer as a number without fractional digits.
    pub fn from_u64(value: u64) -> (r: BigReal)
        ensures
            r@ == Real::integer(value as int),
    {
        BigReal { shift: 0, value: Integer::from_u64(value) }
    }

    /// Zero, without fractional digits.
    pub fn zero() -> (r: BigReal)
        ensures
            r@ == Real::integer(0),
    {
        BigReal { shift: 0, value: Integer::zero() }
    }

    /// One, without fractional digits.
    pub fn one() -> (r: BigReal)
        ensures
            r@ == Real::integer(1),
    {
        BigReal { shift: 0, value: Integer::from_u64(1) }
    }

    /// The integer that stands for this number when it is written with
    /// `shift` fractional digits, which must not be fewer than it has.
    fn aligned_up(&self, shift: u64) -> (r: Integer)
        requires
            shift >= self@.shift,
        ensures
            r@ == self@.aligned(shift as nat),
    {
        shifted_up(&self.value, shift - self.shift as u64)
    }

    /// This number written with `desired_shift` fractional digits. Further
    /// digits are zeros; digits that have no place any more are cut off, so
    /// that the value moves toward zero.
    pub fn change_shift(&self, desired_shift: u32) -> (r: BigReal)
        ensures
            r@ == self@.rescale(desired_shift as nat),
    {
        if desired_shift >= self.shift {
            BigReal { shift: desired_shift, value: self.aligned_up(desired_shift as u64) }
        } else {
            BigReal {
                shift: desired_shift,
                value: shifted_down(&self.value, (self.shift - desired_shift) as u64),
            }
        }
    }

    /// Sets the number of fractional digits without touching the digits
    /// themselves: the value is scaled by a power of ten.
    pub fn set_shift(&mut self, shift: u32)
        ensures
            final(self)@ == (Real { value: old(self)@.value, shift: shift as nat }),
    {
        self.shift = shift;
    }

    /// The number of fractional digits.
    pub fn num_frx_digits(&self) -> (r: u32)
        ensures
            r == self@.shift,
    {
        self.shift
    }

    /// Whether the number has no fractional digits.
    pub fn is_integer(&self) -> (r: bool)
        ensures
            r == (self@.shift == 0),
    {
        self.shift == 0
    }

    /// Whether the number is zero.
    pub fn is_zero(&self) -> (r: bool)
        ensures
            r == (self@.value == 0),
    {
        self.value.is_zero()
    }

    /// Whether the number is above zero.
    pub fn is_positive(&self) -> (r: bool)
        ensures
            r == (self@.value > 0),
    {
        self.value.is_positive()
    }

    /// Whether the number is below zero.
    pub fn is_negative(&self) -> (r: bool)
        ensures
            r == (self@.value < 0),
    {
        self.value.is_negative()
    }

    /// The absolute value, with the same shift.
    pub fn abs(&self) -> (r: BigReal)
        ensures
            r@ == self@.abs(),
    {
        BigReal { shift: self.shift, value: self.value.abs() }
    }

    /// The number with its sign changed, with the same shift.
    pub fn neg(&self) -> (r: BigReal)
        ensures
            r@ == (Real { value: -self@.value, shift: self@.shift }),
    {
        BigReal { shift: self.shift, value: self.value.neg() }
    }

    /// The sum of two numbers, with the larger of their shifts.
    pub fn add(&self, rhs: &BigReal) -> (r: BigReal)
        ensures
            r@ == self@.add(rhs@),
    {
        let shift = if self.shift >= rhs.shift {
            self.shift
        } else {
            rhs.shift
        };
        let a = self.aligned_up(shift as u64);
        let b = rhs.aligned_up(shift as u64);
        BigReal { shift, value: a.add(&b) }
    }

    /// The difference of two numbers, with the larger of their shifts.
    pub fn sub(&self, rhs: &BigReal) -> (r: BigReal)
        ensures
            r@ == self@.sub(rhs@),
    {
        let shift = if self.shift >= rhs.shift {
            self.shift
        } else {
            rhs.shift
        };
        let a = self.aligned_up(shift as u64);
        let b = rhs.aligned_up(shift as u64);
        BigReal { shift, value: a.sub(&b) }
    }

    /// The product of two numbers. Its shift is the sum of their shifts,
    /// which must fit in 32 bits.
    pub fn mul(&self, rhs: &BigReal) -> (r: BigReal)
        requires
            self@.shift + rhs@.shift <= u32::MAX,
        ensures
            r@ == self@.mul(rhs@),
    {
        BigReal { shift: self.shift + rhs.shift, value: self.value.mul(&rhs.value) }
    }

    /// The quotient of two numbers with `scale` fractional digits, cut off
    /// toward zero. The divisor must not be zero.
    pub fn div(&self, rhs: &BigReal, scale: u32) -> (r: BigReal)
        requires
            rhs@.value != 0,
        ensures
            r@ == self@.div(rhs@, scale as nat),
            r@.shift == scale,
    {
        let shift = if self.shift >= rhs.shift {
            self.shift
        } else {
            rhs.shift
        };
        let a = self.aligned_up(shift as u64 + scale as u64);
        let b = rhs.aligned_up(shift as u64);
        proof {
            lemma_pow10_positive((shift - rhs.shift) as nat);
            assert(rhs@.value * pow10((shift - rhs.shift) as nat) != 0) by (nonlinear_arith)
                requires
                    rhs@.value != 0,
                    pow10((shift - rhs.shift) as nat) > 0,
            ;
        }
        let (quotient, _remainder) = a.div_rem(&b);
        BigReal { shift: scale, value: quotient }
    }

    /// The remainder that the division with `scale` fractional digits
    /// leaves: `self - rhs * self.div(rhs, scale)`. The divisor must not be
    /// zero, and its shift and `scale` together must fit in 32 bits.
    pub fn rem(&self, rhs: &BigReal, scale: u32) -> (r: BigReal)
        requires
            rhs@.value != 0,
            rhs@.shift + scale <= u32::MAX,
        ensures
            r@ == self@.rem(rhs@, scale as nat),
    {
        let quotient = self.div(rhs, scale);
        let product = rhs.mul(&quotient);
        self.sub(&product)
    }

    /// The quotient with `scale` fractional digits and the remainder that
    /// it leaves. The divisor must not be zero, and its shift and `scale`
    /// together must fit in 32 bits.
    pub fn div_rem(&self, rhs: &BigReal, scale: u32) -> (r: (BigReal, BigReal))
        requires
            rhs@.value != 0,
            rhs@.shift + scale <= u32::MAX,
        ensures
            r.0@ == self@.div(rhs@, scale as nat),
            r.1@ == self@.rem(rhs@, scale as nat),
    {
        let quotient = self.div(rhs, scale);
        let product = rhs.mul(&quotient);
        let remainder = self.sub(&product);
        (quotient, remainder)
    }

    /// Drops the zeros at the end of the fraction: the shift becomes as
    /// small as it can without the loss of a digit. The value stays.
    pub fn simplify(&mut self)
        ensures
            final(self)@ == old(self)@.simplified(),
            final(self)@.same_number(old(self)@),
    {
        proof {
            lemma_simplified(old(self)@);
        }
        let ten = Integer::from_u64(10);
        let mut done = false;
        while !done && self.shift > 0
            invariant
                ten@ == 10,
                self@.simplified() == old(self)@.simplified(),
                done ==> self@.simplified() == self@,
            decreases
                    (if done {
                        0
                    } else {
                        self.shift + 1
                    }),
        {
            let (quotient, remainder) = self.value.div_rem(&ten);
            proof {
                lemma_trunc_div_positive(self.value@, 10);
            }
            if remainder.is_zero() {
                self.shift -= 1;
                self.value = quotient;
            } else {
                done = true;
            }
        }
    }

    /// The number of decimal digits of the magnitude, those of the fraction
    /// included: that of the digits as they are stored.
    pub fn num_digits(&self) -> (r: usize)
        ensures
            r == radix_digits(abs_int(self@.value) as nat, 10).len(),
    {
        self.value.num_digits()
    }

    /// This number to the power of the integer part of `exponent`; the
    /// fractional part of the exponent is ignored. A negative exponent
    /// gives one divided by the power to its magnitude, with `scale`
    /// fractional digits. The shift of the power must fit in 32 bits, and
    /// zero has no negative power.
    pub fn pow(&self, exponent: &BigReal, scale: u32) -> (r: BigReal)
        requires
            self@.shift * abs_int(exponent@.trunc()) <= u32::MAX,
            exponent@.trunc() < 0 ==> self@.value != 0,
        ensures
            r@ == self@.pow(exponent@, scale as nat),
    {
        let truncated = exponent.to_int();
        let negative = truncated.is_negative();
        let mut e = truncated.abs();
        if e.is_zero() {
            return BigReal::one();
        }
        let ghost total = e@ as nat;
        let ghost mut k: nat = 1;
        let mut base = self.clone();
        proof {
            lemma_power_one(self@);
        }
        while e.is_even()
            invariant
                e@ > 0,
                k >= 1,
                k * e@ == total,
                base@ == self@.power(k),
                self@.shift * total <= u32::MAX,
            decreases e@,
        {
            proof {
                assert(2 * k * (e@ / 2) == k * e@) by (nonlinear_arith)
                    requires
                        e@ % 2 == 0,
                ;
                lemma_power_fits(self@.shift, 2 * k, total, e@ / 2);
                lemma_power_adds(self@, k, k);
            }
            base = base.mul(&base);
            e = e.half();
            proof {
                k = 2 * k;
            }
        }
        let ghost mut n: nat = k;
        let mut result = base.clone();
        let one = Integer::from_u64(1);
        proof {
            assert(k + 2 * k * (e@ / 2) == k * e@) by (nonlinear_arith)
                requires
                    e@ % 2 == 1,
            ;
        }
        while one.less_than(&e)
            invariant
                one@ == 1,
                e@ >= 1,
                k >= 1,
                n >= 1,
                n + 2 * k * (e@ / 2) == total,
                base@ == self@.power(k),
                result@ == self@.power(n),
                self@.shift * total <= u32::MAX,
            decreases e@,
        {
            let ghost half = e@ / 2;
            proof {
                assert(2 * k * half >= 2 * k) by (nonlinear_arith)
                    requires
                        half >= 1,
                        k >= 1,
                ;
                lemma_power_fits(self@.shift, 2 * k, total, 1);
                lemma_power_adds(self@, k, k);
                if half % 2 == 0 {
                    assert(2 * (2 * k) * (half / 2) == 2 * k * half) by (nonlinear_arith)
                        requires
                            half == 2 * (half / 2),
                    ;
                } else {
                    assert(2 * k + 2 * (2 * k) * (half / 2) == 2 * k * half) by (nonlinear_arith)
                        requires
                            half == 2 * (half / 2) + 1,
                    ;
                }
            }
            e = e.half();
            base = base.mul(&base);
            proof {
                k = 2 * k;
            }
            if !e.is_even() {
                proof {
                    lemma_power_fits(self@.shift, n + k, total, 1);
                    lemma_power_adds(self@, n, k);
                }
                result = result.mul(&base);
                proof {
                    n = n + k;
                }
            }
        }
        if negative {
            proof {
                vstd::arithmetic::power::lemma_pow_positive(abs_int(self@.value), total);
                lemma_pow_nonzero(self@.value, total);
            }
            BigReal::one().div(&result, scale)
        } else {
            result
        }
    }

    /// The square root, with the larger of `scale` and the number's own
    /// shift as the number of fractional digits; `None` for a negative
    /// number. The root is found by Newton's iteration from the number
    /// itself, which ends with the first step that changes the last digit
    /// by one at most.
    pub fn sqrt(&self, scale: u32) -> (r: Option<BigReal>)
        ensures
            r is None <==> self@.value < 0,
            r matches Some(root) ==> root@ == self@.sqrt(scale as nat),
    {
        if self.is_negative() {
            return None;
        }
        if self.is_zero() {
            return Some(self.clone());
        }
        let shift = if self.shift >= scale {
            self.shift
        } else {
            scale
        };
        let start = self.aligned_up(shift as u64);
        let target = shifted_up(&start, shift as u64);
        let two = Integer::from_u64(2);
        let one = Integer::from_u64(1);
        proof {
            lemma_pow10_positive((shift - self.shift) as nat);
            lemma_pow10_positive(shift as nat);
            assert(start@ > 0) by (nonlinear_arith)
                requires
                    start@ == self@.value * pow10((shift - self.shift) as nat),
                    self@.value > 0,
                    pow10((shift - self.shift) as nat) > 0,
            ;
            assert(target@ > 0) by (nonlinear_arith)
                requires
                    target@ == start@ * pow10(shift as nat),
                    start@ > 0,
                    pow10(shift as nat) > 0,
            ;
        }
        let mut x = start.clone();
        let mut done = false;
        while !done
            invariant
                one@ == 1,
                two@ == 2,
                target@ > 0,
                x@ > 0,
                !done ==> newton_sqrt(target@, x@) == newton_sqrt(target@, start@),
                done ==> x@ == newton_sqrt(target@, start@),
            decreases
                    (if done {
                        0
                    } else {
                        newton_rank(target@, x@) + 1
                    }),
        {
            proof {
                lemma_newton_step(target@, x@);
                vstd::arithmetic::div_mod::lemma_div_pos_is_pos(target@, x@);
                lemma_trunc_div_positive(target@, x@);
                lemma_trunc_div_positive(x@ + target@ / x@, 2);
            }
            let (quotient, _r1) = target.div_rem(&x);
            let (next, _r2) = x.add(&quotient).div_rem(&two);
            let delta = x.sub(&next).abs();
            x = next;
            if !one.less_than(&delta) {
                done = true;
            }
        }
        Some(BigReal { shift, value: x })
    }

    /// The power of `base` to `exponent` modulo `modulus`, computed on the
    /// integer parts of the three numbers; `None` where the exponent is
    /// negative or the integer part of the modulus is zero. The result has
    /// the sign of the power. Modulo one it is zero. The scale plays no
    /// part: the result is an integer.
    pub fn modexp(base: &BigReal, exponent: &BigReal, modulus: &BigReal, scale: u32) -> (r: Option<
        BigReal,
    >)
        ensures
            r is None <==> exponent@.value < 0 || modulus@.trunc() == 0,
            r matches Some(power) ==> power@ == base@.modexp(exponent@, modulus@),
    {
        let m = modulus.to_int();
        if exponent.is_negative() || m.is_zero() {
            return None;
        }
        let one = Integer::from_u64(1);
        if m.equals(&one) {
            return Some(BigReal::zero());
        }
        let b = base.to_int();
        let mut e = exponent.to_int();
        proof {
            lemma_pow10_positive(exponent@.shift);
            lemma_trunc_div_positive(exponent@.value, pow10(exponent@.shift));
            vstd::arithmetic::div_mod::lemma_div_pos_is_pos(
                exponent@.value,
                pow10(exponent@.shift),
            );
            lemma_pow10_step(0);
            assert(exponent@.value * 1 == exponent@.value);
            assert(e@ >= 0);
        }
        let ghost total = e@ as nat;
        let mut factor = b.div_rem(&m).1;
        let mut result = one.clone();
        let ghost mut touched = false;
        proof {
            lemma_trunc_rem_pow(b@, total, m@);
            lemma_trunc_rem_twice(b@, m@);
            assert(1 * pow(factor@, total) == pow(factor@, total));
        }
        while !e.is_zero()
            invariant
                m@ != 0,
                0 <= e@ <= total,
                trunc_rem(factor@, m@) == factor@,
                trunc_rem(result@ * pow(factor@, e@ as nat), m@) == trunc_rem(pow(b@, total), m@),
                touched ==> trunc_rem(result@, m@) == result@ && total != 0,
                !touched ==> result@ == 1 && (e@ > 0 || total == 0),
            decreases e@,
        {
            let ghost half = (e@ / 2) as nat;
            let ghost square = factor@ * factor@;
            let ghost old_result = result@;
            let ghost old_factor = factor@;
            proof {
                lemma_pow_halves(factor@, e@ as nat);
                lemma_trunc_rem_pow(square, half, m@);
            }
            if !e.is_even() {
                result = result.mul(&factor).div_rem(&m).1;
                proof {
                    touched = true;
                    lemma_trunc_rem_twice(old_result * old_factor, m@);
                    // result * factor^e is (result * factor) * square^half
                    assert(old_result * (old_factor * pow(square, half)) == (old_result
                        * old_factor) * pow(square, half)) by (nonlinear_arith);
                    lemma_trunc_rem_mul(old_result * old_factor, pow(square, half), m@);
                    lemma_trunc_rem_mul(result@, pow(trunc_rem(square, m@), half), m@);
                }
            } else {
                proof {
                    lemma_trunc_rem_mul(old_result, pow(square, half), m@);
                    lemma_trunc_rem_mul(old_result, pow(trunc_rem(square, m@), half), m@);
                }
            }
            e = e.half();
            factor = factor.mul(&factor).div_rem(&m).1;
            proof {
                lemma_trunc_rem_twice(square, m@);
            }
        }
        proof {
            reveal(pow);
            assert(result@ * pow(factor@, 0) == result@) by (nonlinear_arith)
                requires
                    pow(factor@, 0) == 1,
            ;
        }
        Some(BigReal { shift: 0, value: result })
    }

    /// The number written in the given radix, which is 2 at least, with
    /// lower-case letters for the digits from ten on. Above radix 16 each
    /// digit is written in decimal, and the digits stand apart.
    pub fn to_str_radix(&self, radix: u32) -> (r: Vec<u8>)
        requires
            radix >= 2,
        ensures
            r@ == self@.text(radix as nat),
    {
        let mut out: Vec<u8> = Vec::new();
        if self.value.is_negative() {
            out.push(45);
        }
        let ghost sign = out@;
        let magnitude = self.value.abs();
        let width = digit_width(radix);
        if self.shift == 0 {
            push_whole(&mut out, &magnitude, radix, width);
            return out;
        }
        if radix == 10 {
            let digits = magnitude.to_str_radix(10);
            let shift = self.shift as usize;
            if digits.len() < shift {
                out.push(46);
                push_zeros(&mut out, shift - digits.len());
                push_all(&mut out, &digits);
                assert(out@ =~= sign + pointed_text(digits@, shift as nat));
            } else {
                let point = digits.len() - shift;
                let mut i: usize = 0;
                while i < digits.len()
                    invariant
                        point <= digits.len(),
                        i <= digits.len(),
                        i <= point ==> out@ == sign + digits@.subrange(0, i as int),
                        i > point ==> out@ == sign + digits@.subrange(0, point as int) + seq![
                            46u8,
                        ] + digits@.subrange(point as int, i as int),
                    decreases digits.len() - i,
                {
                    if i == point {
                        out.push(46);
                    }
                    out.push(digits[i]);
                    i += 1;
                    proof {
                        if i <= point {
                            assert(out@ =~= sign + digits@.subrange(0, i as int));
                        } else {
                            assert(out@ =~= sign + digits@.subrange(0, point as int) + seq![
                                46u8,
                            ] + digits@.subrange(point as int, i as int));
                        }
                    }
                }
                if point == digits.len() {
                    out.push(46);
                }
                assert(out@ =~= sign + pointed_text(digits@, shift as nat));
            }
            return out;
        }
        let unit = power_of_ten(self.shift as u64);
        proof {
            lemma_pow10_positive(self.shift as nat);
            lemma_trunc_div_positive(magnitude@, unit@);
            vstd::arithmetic::div_mod::lemma_mod_bound(magnitude@, unit@);
            vstd::arithmetic::div_mod::lemma_div_pos_is_pos(magnitude@, unit@);
        }
        let (whole, fraction) = magnitude.div_rem(&unit);
        if !whole.is_zero() {
            push_whole(&mut out, &whole, radix, width);
        }
        out.push(46);
        let base = Integer::from_u64(radix as u64);
        let mut part = fraction.mul(&base);
        let mut place = base.clone();
        let mut first = true;
        let mut done = false;
        let ghost expected = self@.text(radix as nat);
        proof {
            assert(part@ >= 0 && part@ < unit@ * radix) by (nonlinear_arith)
                requires
                    part@ == fraction@ * radix,
                    0 <= fraction@ < unit@,
                    radix >= 2,
            ;
            assert(expected =~= out@ + fraction_text(
                part@ as nat,
                unit@ as nat,
                place@ as nat,
                radix as nat,
                true,
            ));
        }
        while !done
            invariant
                radix >= 2,
                radix != 10,
                width == group_width(radix as nat),
                base@ == radix,
                unit@ > 0,
                place@ >= 1,
                0 <= part@ < unit@ * radix,
                !done ==> expected == out@ + fraction_text(
                    part@ as nat,
                    unit@ as nat,
                    place@ as nat,
                    radix as nat,
                    first,
                ),
                done ==> expected == out@,
            decreases
                    (if done {
                        0
                    } else if place@ >= unit@ {
                        1
                    } else {
                        unit@ - place@ + 1
                    }),
        {
            proof {
                lemma_trunc_div_positive(part@, unit@);
                vstd::arithmetic::div_mod::lemma_mod_bound(part@, unit@);
                vstd::arithmetic::div_mod::lemma_div_pos_is_pos(part@, unit@);
                assert(part@ / unit@ < radix) by (nonlinear_arith)
                    requires
                        part@ == unit@ * (part@ / unit@) + part@ % unit@,
                        part@ % unit@ >= 0,
                        part@ < unit@ * radix,
                        unit@ > 0,
                ;
                vstd::arithmetic::div_mod::lemma_fundamental_div_mod(part@, unit@);
            }
            let ghost before = out@;
            let ghost old_part = part@;
            let ghost old_place = place@;
            let (digit, rest) = part.div_rem(&unit);
            let d = match digit.to_u64() {
                Some(d) => d,
                None => 0,
            };
            if radix > 16 && !first {
                out.push(32);
            }
            push_digit(&mut out, d, radix, width);
            part = rest.mul(&base);
            proof {
                assert(part@ >= 0 && part@ < unit@ * radix) by (nonlinear_arith)
                    requires
                        part@ == rest@ * radix,
                        0 <= rest@ < unit@,
                        radix >= 2,
                ;
            }
            if !place.less_than(&unit) {
                done = true;
                proof {
                    assert(expected =~= out@);
                }
            } else {
                place = place.mul(&base);
                proof {
                    assert(place@ > old_place) by (nonlinear_arith)
                        requires
                            place@ == old_place * radix,
                            old_place >= 1,
                            radix >= 2,
                    ;
                    assert(expected =~= out@ + fraction_text(
                        part@ as nat,
                        unit@ as nat,
                        place@ as nat,
                        radix as nat,
                        false,
                    ));
                }
                first = false;
            }
        }
        out
    }

    /// Whether two numbers are equal in value, whatever their shifts.
    pub fn equals(&self, rhs: &BigReal) -> (r: bool)
        ensures
            r == self@.same_number(rhs@),
    {
        self.sub(rhs).value.is_zero()
    }

    /// Whether this number is below the other in value.
    pub fn less_than(&self, rhs: &BigReal) -> (r: bool)
        ensures
            r == self@.less_than(rhs@),
    {
        self.sub(rhs).value.is_negative()
    }

    /// The number as an integer, with the fractional part cut off.
    pub fn to_int(&self) -> (r: Integer)
        ensures
            r@ == self@.trunc(),
    {
        if self.shift == 0 {
            proof {
                lemma_pow10_step(0);
            }
            self.value.clone()
        } else {
            shifted_down(&self.value, self.shift as u64)
        }
    }

    /// The integer part as a `u32`, if it is not negative and fits.
    pub fn to_u32(&self) -> (r: Option<u32>)
        ensures
            r == (if 0 <= self@.trunc() <= u32::MAX {
                Some(self@.trunc() as u32)
            } else {
                None
            }),
    {
        self.to_int().to_u32()
    }

    /// The integer part as a `u64`, if it is not negative and fits.
    pub fn to_u64(&self) -> (r: Option<u64>)
        ensures
            r == (if 0 <= self@.trunc() <= u64::MAX {
                Some(self@.trunc() as u64)
            } else {
                None
            }),
    {
        self.to_int().to_u64()
    }
}

/// Making a [`BigReal`] from the digits, given as an integer of some type,
/// and the number of them that stand to the right of the point.
pub trait BigRealFrom<T>: Sized {
    /// The number `value / 10^shift`.
    fn new(value: T, shift: u32) -> Self;
}

impl BigRealFrom<Integer> for BigReal {
    fn new(value: Integer, shift: u32) -> (r: BigReal)
        ensures
            r@ == (Real { value: value@, shift: shift as nat }),
    {
        BigReal { shift, value }
    }
}

impl BigRealFrom<u8> for BigReal {
    fn new(value: u8, shift: u32) -> (r: BigReal)
        ensures
            r@ == (Real { value: value as int, shift: shift as nat }),
    {
        BigReal { shift, value: Integer::from_u64(value as u64) }
    }
}

impl BigRealFrom<u16> for BigReal {
    fn new(value: u16, shift: u32) -> (r: BigReal)
        ensures
            r@ == (Real { value: value as int, shift: shift as nat }),
    {
        BigReal { shift, value: Integer::from_u64(value as u64) }
    }
}

impl BigRealFrom<u32> for BigReal {
    fn new(value: u32, shift: u32) -> (r: BigReal)
        ensures
            r@ == (Real { value: value as int, shift: shift as nat }),
    {
        BigReal { shift, value: Integer::from_u64(value as u64) }
    }
}

impl BigRealFrom<u64> for BigReal {
    fn new(value: u64, shift: u32) -> (r: BigReal)
        ensures
            r@ == (Real { value: value as int, shift: shift as nat }),
    {
        BigReal { shift, value: Integer::from_u64(value) }
    }
}

impl BigRealFrom<usize> for BigReal {
    fn new(value: usize, shift: u32) -> (r: BigReal)
        ensures
            r@ == (Real { value: value as int, shift: shift as nat }),
    {
        BigReal { shift, value: Integer::from_u64(value as u64) }
    }
}

impl BigRealFrom<i8> for BigReal {
    fn new(value: i8, shift: u32) -> (r: BigReal)
        ensures
            r@ == (Real { value: value as int, shift: shift as nat }),
    {
        BigReal { shift, value: Integer::from_i64(value as i64) }
    }
}

impl BigRealFrom<i16> for BigReal {
    fn new(value: i16, shift: u32) -> (r: BigReal)
        ensures
            r@ == (Real { value: value as int, shift: shift as nat }),
    {
        BigReal { shift, value: Integer::from_i64(value as i64) }
    }
}

impl BigRealFrom<i32> for BigReal {
    fn new(value: i32, shift: u32) -> (r: BigReal)
        ensures
            r@ == (Real { value: value as int, shift: shift as nat }),
    {
        BigReal { shift, value: Integer::from_i64(value as i64) }
    }
}

impl BigRealFrom<i64> for BigReal {
    fn new(value: i64, shift: u32) -> (r: BigReal)
        ensures
            r@ == (Real { value: value as int, shift: shift as nat }),
    {
        BigReal { shift, value: Integer::from_i64(value) }
    }
}

impl BigRealFrom<isize> for BigReal {
    fn new(value: isize, shift: u32) -> (r: BigReal)
        ensures
            r@ == (Real { value: value as int, shift: shift as nat }),
    {
        BigReal { shift, value: Integer::from_i64(value as i64) }
    }
}

} // verus!

//! Arbitrary-precision signed integers.
//!
//! An [`Integer`] stores its value as little-endian two's-complement bytes,
//! and its view is the mathematical integer those bytes denote. The
//! arithmetic itself is delegated to `num-bigint`; the private functions
//! whose names begin with `big_` make those calls, and their contracts are
//! taken on trust. Each of them hands the bytes over with
//! `BigInt::from_signed_bytes_le` and takes the result back with
//! `BigInt::to_signed_bytes_le`: that the two read and write two's
//! complement as [`signed_le`] does is part of what is trusted.

use vstd::prelude::*;
use vstd::arithmetic::power::pow;
use vstd::arithmetic::div_mod::lemma_fundamental_div_mod;
use vstd::arithmetic::div_mod::lemma_fundamental_div_mod_converse;
use vstd::arithmetic::div_mod::lemma_mod_bound;

verus! {

/// The natural number denoted by little-endian base-256 digits.
pub open spec fn unsigned_le(bytes: Seq<u8>) -> nat
    decreases bytes.len(),
{
    if bytes.len() == 0 {
        0
    } else {
        bytes[0] as nat + 256 * unsigned_le(bytes.drop_first())
    }
}

/// The natural number denoted by big-endian base-256 digits.
pub open spec fn unsigned_be(bytes: Seq<u8>) -> nat
    decreases bytes.len(),
{
    if bytes.len() == 0 {
        0
    } else {
        256 * unsigned_be(bytes.drop_last()) + bytes.last() as nat
    }
}

/// The integer denoted by little-endian two's-complement bytes. The empty
/// sequence denotes zero; otherwise the top bit of the last byte is the sign.
pub open spec fn signed_le(bytes: Seq<u8>) -> int {
    if bytes.len() > 0 && bytes.last() >= 128 {
        unsigned_le(bytes) - pow(256, bytes.len())
    } else {
        unsigned_le(bytes) as int
    }
}

/// Truncating division: the quotient is rounded toward zero.
pub open spec fn trunc_div(a: int, b: int) -> int
    recommends
        b != 0,
{
    if a >= 0 && b > 0 {
        a / b
    } else if a < 0 && b > 0 {
        -((-a) / b)
    } else if a >= 0 && b < 0 {
        -(a / (-b))
    } else {
        (-a) / (-b)
    }
}

/// The remainder that goes with [`trunc_div`]; it has the sign of `a`.
pub open spec fn trunc_rem(a: int, b: int) -> int
    recommends
        b != 0,
{
    a - b * trunc_div(a, b)
}

/// The absolute value of an integer.
pub open spec fn abs_int(a: int) -> int {
    if a < 0 {
        -a
    } else {
        a
    }
}

/// The character for one digit below 36: `0`-`9`, then `a`-`z`.
pub open spec fn digit_char(d: int) -> u8 {
    if d < 10 {
        (48 + d) as u8
    } else {
        (87 + d) as u8
    }
}

/// The digits of `n` in the given radix, most significant first; zero is the
/// single digit `0`.
pub open spec fn radix_digits(n: nat, radix: nat) -> Seq<u8>
    decreases n,
    via radix_digits_decreases
{
    if radix < 2 || n < radix {
        seq![digit_char(n as int)]
    } else {
        radix_digits(n / radix, radix).push(digit_char((n % radix) as int))
    }
}

#[via_fn]
proof fn radix_digits_decreases(n: nat, radix: nat) {
    if !(radix < 2 || n < radix) {
        assert(n / radix < n) by (nonlinear_arith)
            requires
                radix >= 2,
                n >= radix,
        ;
    }
}

/// An integer written in the given radix: a minus sign for a negative
/// number, then the digits of its magnitude.
pub open spec fn radix_text(v: int, radix: nat) -> Seq<u8> {
    if v < 0 {
        seq![45u8] + radix_digits((-v) as nat, radix)
    } else {
        radix_digits(v as nat, radix)
    }
}

/// Digits in base 256 denote less than 256 to the power of their number.
pub proof fn lemma_unsigned_le_bound(bytes: Seq<u8>)
    ensures
        unsigned_le(bytes) < pow(256, bytes.len()),
    decreases bytes.len(),
{
    reveal(pow);
    if bytes.len() > 0 {
        lemma_unsigned_le_bound(bytes.drop_first());
    }
}

/// Digits in base 256 denote zero exactly when each of them is zero.
pub proof fn lemma_unsigned_le_zero(bytes: Seq<u8>)
    ensures
        unsigned_le(bytes) == 0 <==> (forall|i: int| 0 <= i < bytes.len() ==> bytes[i] == 0),
    decreases bytes.len(),
{
    if bytes.len() > 0 {
        let rest = bytes.drop_first();
        lemma_unsigned_le_zero(rest);
        if unsigned_le(bytes) == 0 {
            assert forall|i: int| 0 <= i < bytes.len() implies bytes[i] == 0 by {
                if i > 0 {
                    assert(bytes[i] == rest[i - 1]);
                }
            }
        }
        if forall|i: int| 0 <= i < bytes.len() ==> bytes[i] == 0 {
            assert forall|i: int| 0 <= i < rest.len() implies rest[i] == 0 by {
                assert(rest[i] == bytes[i + 1]);
            }
        }
    }
}

/// Truncating division by a positive divisor, in terms of the division
/// that rounds down: they agree on a dividend that is not negative, and
/// wherever the division leaves no remainder.
pub proof fn lemma_trunc_div_positive(a: int, b: int)
    requires
        b > 0,
    ensures
        a >= 0 ==> trunc_div(a, b) == a / b && trunc_rem(a, b) == a % b,
        (trunc_rem(a, b) == 0) == (a % b == 0),
        a % b == 0 ==> trunc_div(a, b) == a / b,
        abs_int(trunc_rem(a, b)) < b,
        a >= 0 ==> trunc_rem(a, b) >= 0,
        a <= 0 ==> trunc_rem(a, b) <= 0,
{
    lemma_fundamental_div_mod(a, b);
    lemma_fundamental_div_mod(-a, b);
    lemma_mod_bound(a, b);
    lemma_mod_bound(-a, b);
    if a < 0 {
        let k = (-a) / b;
        assert(b * (-k) == -(b * k) && (-k) * b == -(b * k)) by (nonlinear_arith);
        if (-a) % b == 0 {
            lemma_fundamental_div_mod_converse(a, b, -k, 0);
        }
        if a % b == 0 {
            let j = a / b;
            assert(b * (-j) == -(b * j) && (-j) * b == -(b * j)) by (nonlinear_arith);
            lemma_fundamental_div_mod_converse(-a, b, -j, 0);
        }
    }
}


/// The bytes of a natural number, the most significant first, without
/// leading zero bytes; zero is the single byte 0.
pub open spec fn magnitude_bytes(n: nat) -> Seq<u8>
    decreases n,
{
    if n < 256 {
        seq![n as u8]
    } else {
        magnitude_bytes(n / 256).push((n % 256) as u8)
    }
}

/// Big-endian digits that begin with a digit other than zero denote a
/// number above zero.
pub proof fn lemma_unsigned_be_positive(bytes: Seq<u8>)
    requires
        bytes.len() >= 1,
        bytes[0] != 0,
    ensures
        unsigned_be(bytes) > 0,
    decreases bytes.len(),
{
    if bytes.len() > 1 {
        let front = bytes.drop_last();
        assert(front[0] == bytes[0]);
        lemma_unsigned_be_positive(front);
    } else {
        assert(bytes.drop_last().len() == 0);
        assert(bytes.last() == bytes[0]);
    }
}

/// Big-endian digits without a leading zero are the bytes of the number
/// that they denote.
pub proof fn lemma_magnitude_bytes_unique(bytes: Seq<u8>)
    requires
        bytes.len() >= 1,
        bytes.len() == 1 || bytes[0] != 0,
    ensures
        bytes == magnitude_bytes(unsigned_be(bytes)),
    decreases bytes.len(),
{
    let front = bytes.drop_last();
    let n = unsigned_be(bytes);
    if bytes.len() == 1 {
        assert(front.len() == 0);
        assert(unsigned_be(front) == 0);
        assert(bytes =~= seq![bytes.last()]);
    } else {
        assert(front[0] == bytes[0]);
        lemma_magnitude_bytes_unique(front);
        lemma_unsigned_be_positive(front);
        let p = unsigned_be(front);
        assert(n == 256 * p + bytes.last());
        assert(n / 256 == p && n % 256 == bytes.last()) by (nonlinear_arith)
            requires
                n == 256 * p + bytes.last(),
                0 <= bytes.last() < 256,
        ;
        assert(bytes =~= front.push(bytes.last()));
    }
}

/// An arbitrary-precision signed integer.
#[derive(Debug)]
pub struct Integer {
    bytes: Vec<u8>,
}

impl View for Integer {
    type V = int;

    closed spec fn view(&self) -> int {
        signed_le(self.bytes@)
    }
}

/// Calls `BigInt::from` on a `u64`: the result has the value of the argument.
#[verifier::external_body]
fn big_from_u64(v: u64) -> (r: Integer)
    ensures
        r@ == v,
{
    Integer { bytes: num_bigint::BigInt::from(v).to_signed_bytes_le() }
}

/// Calls `BigInt::from` on an `i64`: the result has the value of the argument.
#[verifier::external_body]
fn big_from_i64(v: i64) -> (r: Integer)
    ensures
        r@ == v,
{
    Integer { bytes: num_bigint::BigInt::from(v).to_signed_bytes_le() }
}

/// Calls `ToPrimitive::to_u64` on a `BigInt`: the value, where it is not
/// negative and fits in 64 bits, and `None` otherwise.
#[verifier::external_body]
fn big_to_u64(a: &Integer) -> (r: Option<u64>)
    ensures
        r == (if 0 <= a@ <= u64::MAX {
            Some(a@ as u64)
        } else {
            None
        }),
{
    num_traits::ToPrimitive::to_u64(&num_bigint::BigInt::from_signed_bytes_le(&a.bytes))
}

/// Calls `BigInt`'s `Add`: the result is the sum.
#[verifier::external_body]
fn big_add(a: &Integer, b: &Integer) -> (r: Integer)
    ensures
        r@ == a@ + b@,
{
    let x = num_bigint::BigInt::from_signed_bytes_le(&a.bytes);
    let y = num_bigint::BigInt::from_signed_bytes_le(&b.bytes);
    Integer { bytes: (x + y).to_signed_bytes_le() }
}

/// Calls `BigInt`'s `Sub`: the result is the difference.
#[verifier::external_body]
fn big_sub(a: &Integer, b: &Integer) -> (r: Integer)
    ensures
        r@ == a@ - b@,
{
    let x = num_bigint::BigInt::from_signed_bytes_le(&a.bytes);
    let y = num_bigint::BigInt::from_signed_bytes_le(&b.bytes);
    Integer { bytes: (x - y).to_signed_bytes_le() }
}

/// Calls `BigInt`'s `Mul`: the result is the product.
#[verifier::external_body]
fn big_mul(a: &Integer, b: &Integer) -> (r: Integer)
    ensures
        r@ == a@ * b@,
{
    let x = num_bigint::BigInt::from_signed_bytes_le(&a.bytes);
    let y = num_bigint::BigInt::from_signed_bytes_le(&b.bytes);
    Integer { bytes: (x * y).to_signed_bytes_le() }
}

/// Calls `num_integer::Integer::div_rem` on two `BigInt`s: the truncated
/// quotient and the remainder that goes with it. The divisor must not be
/// zero, on which the call panics.
#[verifier::external_body]
fn big_div_rem(a: &Integer, b: &Integer) -> (r: (Integer, Integer))
    requires
        b@ != 0,
    ensures
        r.0@ == trunc_div(a@, b@),
        r.1@ == trunc_rem(a@, b@),
{
    let x = num_bigint::BigInt::from_signed_bytes_le(&a.bytes);
    let y = num_bigint::BigInt::from_signed_bytes_le(&b.bytes);
    let (q, m) = num_integer::Integer::div_rem(&x, &y);
    (Integer { bytes: q.to_signed_bytes_le() }, Integer { bytes: m.to_signed_bytes_le() })
}

/// Calls `BigInt::to_str_radix`: a minus sign for a negative number, then
/// the digits of the magnitude with lower-case letters. The radix must be
/// between 2 and 36, outside of which the call panics.
#[verifier::external_body]
fn big_to_str_radix(a: &Integer, radix: u32) -> (r: Vec<u8>)
    requires
        2 <= radix <= 36,
    ensures
        r@ == radix_text(a@, radix as nat),
{
    num_bigint::BigInt::from_signed_bytes_le(&a.bytes).to_str_radix(radix).into_bytes()
}

/// Calls `BigInt::to_bytes_be`: the magnitude in big-endian bytes without
/// leading zero bytes, and the single byte 0 for zero.
#[verifier::external_body]
fn big_to_bytes_be(a: &Integer) -> (r: Vec<u8>)
    ensures
        unsigned_be(r@) == abs_int(a@),
        r@.len() >= 1,
        r@.len() == 1 || r@[0] != 0,
{
    let (_sign, bytes) = num_bigint::BigInt::from_signed_bytes_le(&a.bytes).to_bytes_be();
    bytes
}

impl Clone for Integer {
    fn clone(&self) -> (r: Self)
        ensures
            r@ == self@,
    {
        Integer { bytes: self.bytes.clone() }
    }
}

impl Integer {
    /// The integer with the value of an unsigned machine integer.
    pub fn from_u64(v: u64) -> (r: Integer)
        ensures
            r@ == v,
    {
        big_from_u64(v)
    }

    /// The integer with the value of a signed machine integer.
    pub fn from_i64(v: i64) -> (r: Integer)
        ensures
            r@ == v,
    {
        big_from_i64(v)
    }

    /// Zero.
    pub fn zero() -> (r: Integer)
        ensures
            r@ == 0,
    {
        Integer { bytes: Vec::new() }
    }

    /// The value as a `u64`, if it is not negative and fits.
    pub fn to_u64(&self) -> (r: Option<u64>)
        ensures
            r == (if 0 <= self@ <= u64::MAX {
                Some(self@ as u64)
            } else {
                None
            }),
    {
        big_to_u64(self)
    }

    /// The value as a `u32`, if it is not negative and fits.
    pub fn to_u32(&self) -> (r: Option<u32>)
        ensures
            r == (if 0 <= self@ <= u32::MAX {
                Some(self@ as u32)
            } else {
                None
            }),
    {
        match big_to_u64(self) {
            Some(v) => if v <= 0xffff_ffff {
                Some(v as u32)
            } else {
                None
            },
            None => None,
        }
    }

    /// Whether the value is below zero.
    pub fn is_negative(&self) -> (r: bool)
        ensures
            r == (self@ < 0),
    {
        proof {
            lemma_unsigned_le_bound(self.bytes@);
        }
        let n = self.bytes.len();
        n > 0 && self.bytes[n - 1] >= 128
    }

    /// Whether the value is zero.
    pub fn is_zero(&self) -> (r: bool)
        ensures
            r == (self@ == 0),
    {
        let n = self.bytes.len();
        let mut i: usize = 0;
        while i < n
            invariant
                n == self.bytes@.len(),
                i <= n,
                forall|j: int| 0 <= j < i ==> self.bytes@[j] == 0,
            decreases n - i,
        {
            if self.bytes[i] != 0 {
                proof {
                    lemma_unsigned_le_bound(self.bytes@);
                    lemma_unsigned_le_zero(self.bytes@);
                }
                return false;
            }
            i += 1;
        }
        proof {
            lemma_unsigned_le_zero(self.bytes@);
        }
        true
    }

    /// Whether the value is above zero.
    pub fn is_positive(&self) -> (r: bool)
        ensures
            r == (self@ > 0),
    {
        !self.is_negative() && !self.is_zero()
    }

    /// The sum of two integers.
    pub fn add(&self, rhs: &Integer) -> (r: Integer)
        ensures
            r@ == self@ + rhs@,
    {
        big_add(self, rhs)
    }

    /// The difference of two integers.
    pub fn sub(&self, rhs: &Integer) -> (r: Integer)
        ensures
            r@ == self@ - rhs@,
    {
        big_sub(self, rhs)
    }

    /// The product of two integers.
    pub fn mul(&self, rhs: &Integer) -> (r: Integer)
        ensures
            r@ == self@ * rhs@,
    {
        big_mul(self, rhs)
    }

    /// The truncated quotient and the remainder of a division. The
    /// remainder has the sign of the dividend.
    pub fn div_rem(&self, rhs: &Integer) -> (r: (Integer, Integer))
        requires
            rhs@ != 0,
        ensures
            r.0@ == trunc_div(self@, rhs@),
            r.1@ == trunc_rem(self@, rhs@),
    {
        big_div_rem(self, rhs)
    }

    /// The value with its sign changed.
    pub fn neg(&self) -> (r: Integer)
        ensures
            r@ == -self@,
    {
        big_sub(&Integer::zero(), self)
    }

    /// The absolute value.
    pub fn abs(&self) -> (r: Integer)
        ensures
            r@ == abs_int(self@),
    {
        if self.is_negative() {
            self.neg()
        } else {
            self.clone()
        }
    }

    /// Whether two integers have the same value.
    pub fn equals(&self, rhs: &Integer) -> (r: bool)
        ensures
            r == (self@ == rhs@),
    {
        big_sub(self, rhs).is_zero()
    }

    /// Whether this integer is below the other.
    pub fn less_than(&self, rhs: &Integer) -> (r: bool)
        ensures
            r == (self@ < rhs@),
    {
        big_sub(self, rhs).is_negative()
    }

    /// Whether the value is a multiple of two.
    pub fn is_even(&self) -> (r: bool)
        ensures
            r == (self@ % 2 == 0),
    {
        let (_half, rest) = big_div_rem(self, &Integer::from_u64(2));
        proof {
            lemma_trunc_div_positive(self@, 2);
        }
        rest.is_zero()
    }

    /// Half of a value that is not negative, rounded down.
    pub fn half(&self) -> (r: Integer)
        requires
            self@ >= 0,
        ensures
            r@ == self@ / 2,
    {
        let (half, _rest) = big_div_rem(self, &Integer::from_u64(2));
        half
    }

    /// The number of decimal digits of the magnitude; zero has one digit.
    pub fn num_digits(&self) -> (r: usize)
        ensures
            r == radix_digits(abs_int(self@) as nat, 10).len(),
    {
        big_to_str_radix(&self.abs(), 10).len()
    }

    /// The value written in a radix from 2 to 36, with lower-case letters
    /// for the digits from ten on and a leading minus sign if negative.
    pub fn to_str_radix(&self, radix: u32) -> (r: Vec<u8>)
        requires
            2 <= radix <= 36,
        ensures
            r@ == radix_text(self@, radix as nat),
    {
        big_to_str_radix(self, radix)
    }

    /// The magnitude as big-endian bytes without leading zero bytes; zero
    /// is the single byte 0.
    pub fn to_bytes_be(&self) -> (r: Vec<u8>)
        ensures
            r@ == magnitude_bytes(abs_int(self@) as nat),
    {
        let r = big_to_bytes_be(self);
        proof {
            lemma_magnitude_bytes_unique(r@);
        }
        r
    }
}

} // verus!

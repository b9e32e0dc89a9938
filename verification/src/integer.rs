//! Arbitrary-precision integers.
//!
//! An [`Integer`] holds its value as plain bytes, so that contracts can speak
//! of the number it stands for. The arithmetic itself is done by `num_bigint`:
//! each private function named `big_...` below is a thin call into that crate
//! whose contract is not proved here but taken from the crate's
//! documentation and source.
//!
//! All of them rest on two claims about the crate's byte conversions:
//! `BigInt::from_signed_bytes_le` makes of any bytes the number that
//! [`signed_value`] gives for them, and `BigInt::to_signed_bytes_le` gives
//! bytes for which [`signed_value`] is the number.

use crate::error::Error;
use num_bigint::BigInt;
use vstd::arithmetic::div_mod::{lemma_fundamental_div_mod, lemma_mod_bound};
use vstd::arithmetic::power::pow;
use vstd::prelude::*;

verus! {

/// The number that `bytes` spell in base 256, least significant byte first.
pub open spec fn unsigned_value(bytes: Seq<u8>) -> nat
    decreases bytes.len(),
{
    if bytes.len() == 0 {
        0
    } else {
        bytes[0] as nat + 256 * unsigned_value(bytes.drop_first())
    }
}

/// The number that `bytes` spell in two's complement, least significant byte
/// first. No bytes at all spell zero.
pub open spec fn signed_value(bytes: Seq<u8>) -> int {
    if bytes.len() > 0 && bytes.last() >= 128 {
        unsigned_value(bytes) - pow(256, bytes.len())
    } else {
        unsigned_value(bytes) as int
    }
}

/// Quotient of `a` by `b`, rounded toward zero.
pub open spec fn trunc_div(a: int, b: int) -> int
    recommends
        b != 0,
{
    if a >= 0 && b > 0 {
        a / b
    } else if a >= 0 {
        -(a / (-b))
    } else if b > 0 {
        -((-a) / b)
    } else {
        (-a) / (-b)
    }
}

/// Remainder of `a` by `b` that goes with [`trunc_div`]: it has the sign of
/// `a`, or is zero.
pub open spec fn trunc_rem(a: int, b: int) -> int
    recommends
        b != 0,
{
    a - b * trunc_div(a, b)
}

/// The character of the decimal digit `d`.
pub open spec fn decimal_digit(d: int) -> char
    recommends
        0 <= d < 10,
{
    ((48 + d) as u8) as char
}

/// The decimal digits of `n`, most significant first, without leading zeros.
pub open spec fn decimal_digits(n: nat) -> Seq<char>
    decreases n,
{
    if n < 10 {
        seq![decimal_digit(n as int)]
    } else {
        decimal_digits(n / 10).push(decimal_digit((n % 10) as int))
    }
}

/// The decimal numeral of `n`, with a leading `-` when `n` is negative.
pub open spec fn decimal(n: int) -> Seq<char> {
    if n < 0 {
        seq!['-'] + decimal_digits((-n) as nat)
    } else {
        decimal_digits(n as nat)
    }
}

/// An integer of any size, held as its two's complement bytes, least
/// significant first.
#[derive(Debug, PartialEq, Eq, Hash)]
pub struct Integer {
    bytes: Vec<u8>,
}

impl View for Integer {
    type V = int;

    closed spec fn view(&self) -> int {
        signed_value(self.bytes@)
    }
}

impl Clone for Integer {
    fn clone(&self) -> (r: Self)
        ensures
            r@ == self@,
    {
        let bytes = self.bytes.clone();
        proof {
            assert(bytes@ =~= self.bytes@);
        }
        Integer { bytes }
    }
}

/// Calls `BigInt::from` on a `u64` and reads the result back with
/// `BigInt::to_signed_bytes_le`. Claimed: the result stands for the same
/// number as `v`.
#[verifier::external_body]
fn big_from_u64(v: u64) -> (r: Integer)
    ensures
        r@ == v,
{
    Integer { bytes: BigInt::from(v).to_signed_bytes_le() }
}

/// Calls `BigInt::from` on an `i64` and reads the result back with
/// `BigInt::to_signed_bytes_le`. Claimed: the result stands for the same
/// number as `v`.
#[verifier::external_body]
fn big_from_i64(v: i64) -> (r: Integer)
    ensures
        r@ == v,
{
    Integer { bytes: BigInt::from(v).to_signed_bytes_le() }
}

/// Calls `usize::try_from` on a reference to the `BigInt` that
/// `BigInt::from_signed_bytes_le` makes of the bytes. Claimed: the number
/// itself where it fits a `usize`, nothing where it does not.
#[verifier::external_body]
fn big_to_usize(a: &Integer) -> (r: Option<usize>)
    ensures
        0 <= a@ <= usize::MAX ==> r == Some(a@ as usize),
        !(0 <= a@ <= usize::MAX) ==> r is None,
{
    usize::try_from(&BigInt::from_signed_bytes_le(&a.bytes)).ok()
}

/// Calls `+` (`Add`) of `num_bigint` on two `BigInt`s. Claimed: the result
/// is their sum.
#[verifier::external_body]
fn big_add(a: &Integer, b: &Integer) -> (r: Integer)
    ensures
        r@ == a@ + b@,
{
    let x = BigInt::from_signed_bytes_le(&a.bytes);
    let y = BigInt::from_signed_bytes_le(&b.bytes);
    Integer { bytes: (x + y).to_signed_bytes_le() }
}

/// Calls `-` (`Sub`) of `num_bigint` on two `BigInt`s. Claimed: the result
/// is their difference.
#[verifier::external_body]
fn big_sub(a: &Integer, b: &Integer) -> (r: Integer)
    ensures
        r@ == a@ - b@,
{
    let x = BigInt::from_signed_bytes_le(&a.bytes);
    let y = BigInt::from_signed_bytes_le(&b.bytes);
    Integer { bytes: (x - y).to_signed_bytes_le() }
}

/// Calls `*` (`Mul`) of `num_bigint` on two `BigInt`s. Claimed: the result
/// is their product.
#[verifier::external_body]
fn big_mul(a: &Integer, b: &Integer) -> (r: Integer)
    ensures
        r@ == a@ * b@,
{
    let x = BigInt::from_signed_bytes_le(&a.bytes);
    let y = BigInt::from_signed_bytes_le(&b.bytes);
    Integer { bytes: (x * y).to_signed_bytes_le() }
}

/// Calls `/` (`Div`) of `num_bigint` on two `BigInt`s. Claimed: the result
/// is the quotient rounded toward zero. The crate panics on a zero divisor,
/// which the precondition rules out.
#[verifier::external_body]
fn big_div(a: &Integer, b: &Integer) -> (r: Integer)
    requires
        b@ != 0,
    ensures
        r@ == trunc_div(a@, b@),
{
    let x = BigInt::from_signed_bytes_le(&a.bytes);
    let y = BigInt::from_signed_bytes_le(&b.bytes);
    Integer { bytes: (x / y).to_signed_bytes_le() }
}

/// Calls `%` (`Rem`) of `num_bigint` on two `BigInt`s. Claimed: the result
/// is the remainder that goes with the quotient rounded toward zero, so it
/// has the sign of the dividend. The crate panics on a zero divisor, which
/// the precondition rules out.
#[verifier::external_body]
fn big_rem(a: &Integer, b: &Integer) -> (r: Integer)
    requires
        b@ != 0,
    ensures
        r@ == trunc_rem(a@, b@),
{
    let x = BigInt::from_signed_bytes_le(&a.bytes);
    let y = BigInt::from_signed_bytes_le(&b.bytes);
    Integer { bytes: (x % y).to_signed_bytes_le() }
}

/// Calls unary `-` (`Neg`) of `num_bigint` on a `BigInt`. Claimed: the
/// result is the negated number.
#[verifier::external_body]
fn big_neg(a: &Integer) -> (r: Integer)
    ensures
        r@ == -a@,
{
    Integer { bytes: (-BigInt::from_signed_bytes_le(&a.bytes)).to_signed_bytes_le() }
}

/// Calls `<` (`PartialOrd`) of `num_bigint` on two `BigInt`s. Claimed: the
/// result says whether the first number is the smaller one.
#[verifier::external_body]
fn big_lt(a: &Integer, b: &Integer) -> (r: bool)
    ensures
        r == (a@ < b@),
{
    BigInt::from_signed_bytes_le(&a.bytes) < BigInt::from_signed_bytes_le(&b.bytes)
}

/// Calls `==` (`PartialEq`) of `num_bigint` on two `BigInt`s. Claimed: the
/// result says whether they are the same number.
#[verifier::external_body]
fn big_eq(a: &Integer, b: &Integer) -> (r: bool)
    ensures
        r == (a@ == b@),
{
    BigInt::from_signed_bytes_le(&a.bytes) == BigInt::from_signed_bytes_le(&b.bytes)
}

/// Calls `to_string` on a `BigInt`, which goes by its `Display`. Claimed:
/// the result is the decimal numeral, with a leading `-` for a negative
/// number and without leading zeros.
#[verifier::external_body]
fn big_to_decimal(a: &Integer) -> (r: String)
    ensures
        r@ == decimal(a@),
{
    BigInt::from_signed_bytes_le(&a.bytes).to_string()
}

impl Integer {
    /// The integer with the value of `v`.
    pub fn from_u64(v: u64) -> (r: Integer)
        ensures
            r@ == v,
    {
        big_from_u64(v)
    }

    /// The integer with the value of `v`.
    pub fn from_i64(v: i64) -> (r: Integer)
        ensures
            r@ == v,
    {
        big_from_i64(v)
    }

    /// The value as a `usize`, where it is one.
    pub fn to_usize(&self) -> (r: Option<usize>)
        ensures
            0 <= self@ <= usize::MAX ==> r == Some(self@ as usize),
            !(0 <= self@ <= usize::MAX) ==> r is None,
    {
        big_to_usize(self)
    }

    /// The decimal numeral of the value.
    pub fn to_decimal(&self) -> (r: String)
        ensures
            r@ == decimal(self@),
    {
        big_to_decimal(self)
    }

    /// Whether the value is below zero.
    pub fn is_negative(&self) -> (r: bool)
        ensures
            r == (self@ < 0),
    {
        let zero = big_from_u64(0);
        big_lt(self, &zero)
    }

    /// Whether the value is zero.
    pub fn is_zero(&self) -> (r: bool)
        ensures
            r == (self@ == 0),
    {
        let zero = big_from_u64(0);
        big_eq(self, &zero)
    }

    /// Whether both stand for the same number.
    pub fn equals(&self, other: &Integer) -> (r: bool)
        ensures
            r == (self@ == other@),
    {
        big_eq(self, other)
    }

    /// Whether `self` is the smaller number.
    pub fn less_than(&self, other: &Integer) -> (r: bool)
        ensures
            r == (self@ < other@),
    {
        big_lt(self, other)
    }

    /// The sum.
    pub fn plus(&self, other: &Integer) -> (r: Integer)
        ensures
            r@ == self@ + other@,
    {
        big_add(self, other)
    }

    /// The difference.
    pub fn minus(&self, other: &Integer) -> (r: Integer)
        ensures
            r@ == self@ - other@,
    {
        big_sub(self, other)
    }

    /// The product.
    pub fn times(&self, other: &Integer) -> (r: Integer)
        ensures
            r@ == self@ * other@,
    {
        big_mul(self, other)
    }

    /// The number with the opposite sign.
    pub fn negated(&self) -> (r: Integer)
        ensures
            r@ == -self@,
    {
        big_neg(self)
    }

    /// The quotient rounded toward zero, or `Error::Division` for a zero
    /// divisor.
    pub fn quotient(&self, divisor: &Integer) -> (r: Result<Integer, Error>)
        ensures
            divisor@ == 0 ==> r == Err::<Integer, Error>(Error::Division),
            divisor@ != 0 ==> r is Ok && r->Ok_0@ == trunc_div(self@, divisor@),
    {
        if divisor.is_zero() {
            Err(Error::Division)
        } else {
            Ok(big_div(self, divisor))
        }
    }

    /// The remainder that goes with [`Integer::quotient`], or
    /// `Error::Division` for a zero divisor. It has the sign of `self`.
    pub fn remainder(&self, divisor: &Integer) -> (r: Result<Integer, Error>)
        ensures
            divisor@ == 0 ==> r == Err::<Integer, Error>(Error::Division),
            divisor@ != 0 ==> r is Ok && r->Ok_0@ == trunc_rem(self@, divisor@),
    {
        if divisor.is_zero() {
            Err(Error::Division)
        } else {
            Ok(big_rem(self, divisor))
        }
    }
}

/// Division rounds toward zero and the remainder follows the dividend:
/// quotient and remainder make up the dividend, the remainder is smaller in
/// size than the divisor, and it is never of the other sign than the
/// dividend.
pub proof fn lemma_trunc_div_rem(a: int, b: int)
    requires
        b != 0,
    ensures
        a == b * trunc_div(a, b) + trunc_rem(a, b),
        a >= 0 ==> 0 <= trunc_rem(a, b),
        a <= 0 ==> trunc_rem(a, b) <= 0,
        b > 0 ==> -b < trunc_rem(a, b) < b,
        b < 0 ==> b < trunc_rem(a, b) < -b,
{
    let x = if a >= 0 {
        a
    } else {
        -a
    };
    let d = if b > 0 {
        b
    } else {
        -b
    };
    lemma_fundamental_div_mod(x, d);
    lemma_mod_bound(x, d);
    let q = x / d;
    assert(b * trunc_div(a, b) == if a >= 0 {
        d * q
    } else {
        -(d * q)
    }) by (nonlinear_arith)
        requires
            q == x / d,
            x == (if a >= 0 {
                a
            } else {
                -a
            }),
            d == (if b > 0 {
                b
            } else {
                -b
            }),
            b != 0,
            trunc_div(a, b) == (if a >= 0 && b > 0 {
                q
            } else if a >= 0 {
                -q
            } else if b > 0 {
                -q
            } else {
                q
            }),
    ;
}

} // verus!

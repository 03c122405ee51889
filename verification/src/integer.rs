//! Integers of unbounded size.
//!
//! An [`Integer`] holds the two's-complement bytes of its value, least
//! significant byte first. The arithmetic itself is done by `num_bigint`:
//! the operations at the end of this module hand the bytes of their operands
//! to `BigInt::from_signed_bytes_le`, apply one operator of `BigInt`, and
//! take the bytes of the result from `BigInt::to_signed_bytes_le`. Their
//! contracts say what the operator does to the numbers; they are taken from
//! the crate and are not proved here. Everything else is.

use num_bigint::BigInt;
use vstd::prelude::*;

verus! {

/// The value of a little-endian two's-complement byte string. The empty
/// string stands for zero; the top bit of the last byte is the sign.
pub open spec fn signed_le(bytes: Seq<u8>) -> int
    decreases bytes.len(),
{
    if bytes.len() == 0 {
        0
    } else if bytes.len() == 1 {
        if bytes[0] < 128 {
            bytes[0] as int
        } else {
            bytes[0] - 256
        }
    } else {
        bytes[0] + 256 * signed_le(bytes.drop_first())
    }
}

/// The modulus of the default field, a prime.
pub const DEFAULT_MODULUS: u64 = 1_000_000_007;

/// Quotient of the division that rounds toward zero.
pub open spec fn trunc_div(a: int, b: int) -> int
    recommends
        b != 0,
{
    if a >= 0 {
        if b > 0 {
            a / b
        } else {
            -(a / (-b))
        }
    } else {
        if b > 0 {
            -((-a) / b)
        } else {
            (-a) / (-b)
        }
    }
}

/// Remainder of the division that rounds toward zero: it has the sign of the
/// dividend.
pub open spec fn trunc_rem(a: int, b: int) -> int
    recommends
        b != 0,
{
    a - b * trunc_div(a, b)
}

/// An integer of unbounded size.
#[derive(Debug)]
pub struct Integer {
    bytes: Vec<u8>,
}

impl View for Integer {
    type V = int;

    closed spec fn view(&self) -> int {
        signed_le(self.bytes@)
    }
}

impl Clone for Integer {
    fn clone(&self) -> (r: Self)
        ensures
            r@ == self@,
    {
        Integer { bytes: self.bytes.clone() }
    }
}

impl Integer {
    /// The integer whose two's-complement bytes, least significant first, are
    /// `bytes`.
    pub fn from_signed_bytes_le(bytes: Vec<u8>) -> (r: Integer)
        ensures
            r@ == signed_le(bytes@),
    {
        Integer { bytes }
    }

    /// Two's-complement bytes of the value, least significant first.
    pub fn to_signed_bytes_le(&self) -> (bytes: Vec<u8>)
        ensures
            signed_le(bytes@) == self@,
    {
        self.bytes.clone()
    }

    /// Zero.
    pub fn zero() -> (r: Integer)
        ensures
            r@ == 0,
    {
        Integer { bytes: Vec::new() }
    }

    /// One.
    pub fn one() -> (r: Integer)
        ensures
            r@ == 1,
    {
        let mut bytes: Vec<u8> = Vec::new();
        bytes.push(1u8);
        Integer { bytes }
    }

    /// The prime 1,000,000,007, the modulus of the default field.
    pub fn default_modulus() -> (r: Integer)
        ensures
            r@ == DEFAULT_MODULUS,
    {
        Integer::from_u64(DEFAULT_MODULUS)
    }

    /// The integer of value `x`.
    pub fn from_u64(x: u64) -> (r: Integer)
        ensures
            r@ == x,
    {
        let b0 = (x & 0xff) as u8;
        let b1 = ((x >> 8) & 0xff) as u8;
        let b2 = ((x >> 16) & 0xff) as u8;
        let b3 = ((x >> 24) & 0xff) as u8;
        let b4 = ((x >> 32) & 0xff) as u8;
        let b5 = ((x >> 40) & 0xff) as u8;
        let b6 = ((x >> 48) & 0xff) as u8;
        let b7 = ((x >> 56) & 0xff) as u8;
        let mut bytes: Vec<u8> = Vec::new();
        bytes.push(b0);
        bytes.push(b1);
        bytes.push(b2);
        bytes.push(b3);
        bytes.push(b4);
        bytes.push(b5);
        bytes.push(b6);
        bytes.push(b7);
        bytes.push(0u8);
        proof {
            assert(x == (x & 0xff) + 0x100 * ((x >> 8) & 0xff) + 0x1_0000 * ((x >> 16) & 0xff)
                + 0x100_0000 * ((x >> 24) & 0xff) + 0x1_0000_0000 * ((x >> 32) & 0xff)
                + 0x100_0000_0000 * ((x >> 40) & 0xff) + 0x1_0000_0000_0000 * ((x >> 48) & 0xff)
                + 0x100_0000_0000_0000 * ((x >> 56) & 0xff)) by (bit_vector);
            assert((x & 0xff) < 0x100 && ((x >> 8) & 0xff) < 0x100 && ((x >> 16) & 0xff) < 0x100
                && ((x >> 24) & 0xff) < 0x100 && ((x >> 32) & 0xff) < 0x100 && ((x >> 40) & 0xff)
                < 0x100 && ((x >> 48) & 0xff) < 0x100 && ((x >> 56) & 0xff) < 0x100)
                by (bit_vector);
            let s0 = bytes@;
            let s1 = s0.drop_first();
            let s2 = s1.drop_first();
            let s3 = s2.drop_first();
            let s4 = s3.drop_first();
            let s5 = s4.drop_first();
            let s6 = s5.drop_first();
            let s7 = s6.drop_first();
            let s8 = s7.drop_first();
            assert(s8 =~= seq![0u8]);
            assert(signed_le(s8) == 0);
            assert(signed_le(s7) == b7 + 256 * signed_le(s8));
            assert(signed_le(s6) == b6 + 256 * signed_le(s7));
            assert(signed_le(s5) == b5 + 256 * signed_le(s6));
            assert(signed_le(s4) == b4 + 256 * signed_le(s5));
            assert(signed_le(s3) == b3 + 256 * signed_le(s4));
            assert(signed_le(s2) == b2 + 256 * signed_le(s3));
            assert(signed_le(s1) == b1 + 256 * signed_le(s2));
            assert(signed_le(s0) == b0 + 256 * signed_le(s1));
        }
        Integer { bytes }
    }

    /// The integer of value `x`.
    pub fn from_i64(x: i64) -> (r: Integer)
        ensures
            r@ == x,
    {
        if x >= 0 {
            Integer::from_u64(x as u64)
        } else {
            // -(x + 1) does not overflow, and the magnitude is one more
            let below = Integer::from_u64((-(x + 1)) as u64);
            let magnitude = below.plus(&Integer::one());
            Integer::zero().minus(&magnitude)
        }
    }

    /// Whether the value is zero.
    pub fn is_zero(&self) -> (r: bool)
        ensures
            r == (self@ == 0),
    {
        let zero = Integer::zero();
        self.same_value(&zero)
    }

    /// Whether the value is below zero.
    pub fn is_negative(&self) -> (r: bool)
        ensures
            r == (self@ < 0),
    {
        let zero = Integer::zero();
        self.less_than(&zero)
    }

    /// `num_bigint`'s `+` on two `BigInt`s: the sum of the two values.
    #[verifier::external_body]
    pub(crate) fn plus(&self, other: &Integer) -> (r: Integer)
        ensures
            r@ == self@ + other@,
    {
        let sum = BigInt::from_signed_bytes_le(&self.bytes)
            + BigInt::from_signed_bytes_le(&other.bytes);
        Integer { bytes: sum.to_signed_bytes_le() }
    }

    /// `num_bigint`'s `-` on two `BigInt`s: the first value less the second.
    #[verifier::external_body]
    pub(crate) fn minus(&self, other: &Integer) -> (r: Integer)
        ensures
            r@ == self@ - other@,
    {
        let difference = BigInt::from_signed_bytes_le(&self.bytes)
            - BigInt::from_signed_bytes_le(&other.bytes);
        Integer { bytes: difference.to_signed_bytes_le() }
    }

    /// `num_bigint`'s `*` on two `BigInt`s: the product of the two values.
    #[verifier::external_body]
    pub(crate) fn times(&self, other: &Integer) -> (r: Integer)
        ensures
            r@ == self@ * other@,
    {
        let product = BigInt::from_signed_bytes_le(&self.bytes)
            * BigInt::from_signed_bytes_le(&other.bytes);
        Integer { bytes: product.to_signed_bytes_le() }
    }

    /// `num_bigint`'s `/` on two `BigInt`s: the quotient rounded toward zero.
    /// The crate panics on a zero divisor, which the precondition leaves out.
    #[verifier::external_body]
    pub(crate) fn quotient(&self, other: &Integer) -> (r: Integer)
        requires
            other@ != 0,
        ensures
            r@ == trunc_div(self@, other@),
    {
        let quotient = BigInt::from_signed_bytes_le(&self.bytes)
            / BigInt::from_signed_bytes_le(&other.bytes);
        Integer { bytes: quotient.to_signed_bytes_le() }
    }

    /// `num_bigint`'s `%` on two `BigInt`s: the remainder of the division
    /// that rounds toward zero, which has the sign of the dividend. The crate
    /// panics on a zero divisor, which the precondition leaves out.
    #[verifier::external_body]
    pub(crate) fn remainder(&self, other: &Integer) -> (r: Integer)
        requires
            other@ != 0,
        ensures
            r@ == trunc_rem(self@, other@),
    {
        let remainder = BigInt::from_signed_bytes_le(&self.bytes)
            % BigInt::from_signed_bytes_le(&other.bytes);
        Integer { bytes: remainder.to_signed_bytes_le() }
    }

    /// `num_bigint`'s `==` on two `BigInt`s: whether the two values are the
    /// same number, whatever bytes each was built from.
    #[verifier::external_body]
    pub(crate) fn same_value(&self, other: &Integer) -> (r: bool)
        ensures
            r == (self@ == other@),
    {
        BigInt::from_signed_bytes_le(&self.bytes) == BigInt::from_signed_bytes_le(&other.bytes)
    }

    /// `num_bigint`'s `<` on two `BigInt`s: whether the first value is the
    /// smaller number.
    #[verifier::external_body]
    pub(crate) fn less_than(&self, other: &Integer) -> (r: bool)
        ensures
            r == (self@ < other@),
    {
        BigInt::from_signed_bytes_le(&self.bytes) < BigInt::from_signed_bytes_le(&other.bytes)
    }
}

/// The numbers that a sequence of integers holds.
pub open spec fn numbers(integers: Seq<Integer>) -> Seq<int> {
    integers.map_values(|i: Integer| i@)
}

impl PartialEq for Integer {
    /// Two integers are equal when they are the same number.
    fn eq(&self, other: &Integer) -> (r: bool) {
        self.same_value(other)
    }
}

impl Eq for Integer {

}

impl vstd::std_specs::cmp::PartialEqSpecImpl for Integer {
    open spec fn obeys_eq_spec() -> bool {
        true
    }

    open spec fn eq_spec(&self, other: &Integer) -> bool {
        self@ == other@
    }
}

} // verus!

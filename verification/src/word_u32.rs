//! `u32` as a word of 32 bits.
use crate::arith::{add_value, le_bytes, le_value, rotl_value, rotr_value, sub_value};
use crate::word::{GetP, GetQ, Word};
use vstd::arithmetic::power2::lemma2_to64;
use vstd::prelude::*;

verus! {

impl GetP for u32 {
    const P: Self = 0xb7e15163;
}

impl GetQ for u32 {
    const Q: Self = 0x9e3779b9;
}

/// `num_traits::PrimInt::rotate_left` on `u32`, which hands on to
/// `u32::rotate_left`. Trusted: for `n` below 32 the result is `x` with its bits
/// moved up by `n`, those that leave at the top coming back in at the bottom.
#[verifier::external_body]
fn rotate_left_u32(x: u32, n: u32) -> (r: u32)
    requires
        n < 32,
    ensures
        r as nat == rotl_value(32, x as nat, n as nat),
{
    num_traits::PrimInt::rotate_left(x, n)
}

/// `num_traits::PrimInt::rotate_right` on `u32`, which hands on to
/// `u32::rotate_right`. Trusted: for `n` below 32 the result is `x` with its
/// bits moved down by `n`, those that leave at the bottom coming back in at the
/// top.
#[verifier::external_body]
fn rotate_right_u32(x: u32, n: u32) -> (r: u32)
    requires
        n < 32,
    ensures
        r as nat == rotr_value(32, x as nat, n as nat),
{
    num_traits::PrimInt::rotate_right(x, n)
}

/// `byterepr::ByteRepr::from_le_bytes` on `u32`, which copies the first four
/// bytes of its argument into an array and hands it to `u32::from_le_bytes`;
/// with fewer bytes it panics. Trusted: four bytes give the number that they
/// spell in base 256, lowest digit first.
#[verifier::external_body]
fn from_le_bytes_u32(bytes: &[u8]) -> (r: u32)
    requires
        bytes@.len() == 4,
    ensures
        r as nat == le_value(bytes@),
{
    byterepr::ByteRepr::from_le_bytes(bytes)
}

/// `byterepr::ByteRepr::into_le_bytes` on `u32`, which is `u32::to_le_bytes`
/// as a vector. Trusted: the result holds the four digits of `x` in base 256,
/// lowest first.
#[verifier::external_body]
fn into_le_bytes_u32(x: u32) -> (r: Vec<u8>)
    ensures
        r@ == le_bytes(x as nat, 4),
{
    byterepr::ByteRepr::into_le_bytes(x)
}

impl Word for u32 {
    const BITS: u8 = 32;

    const BYTES: usize = 4;

    open spec fn bits() -> nat {
        32
    }

    open spec fn value(self) -> nat {
        self as nat
    }

    open spec fn from_value(v: nat) -> Self {
        (v % 0x1_0000_0000) as u32
    }

    open spec fn spec_xor(self, rhs: Self) -> Self {
        self ^ rhs
    }

    proof fn lemma_parameters()
        ensures
            Self::P == 0xb7e15163,
            Self::Q == 0x9e3779b9,
    {
    }

    proof fn lemma_value(self) {
        lemma2_to64();
    }

    proof fn lemma_from_value(v: nat) {
        lemma2_to64();
    }

    proof fn lemma_xor_twice(a: Self, b: Self) {
        assert((a ^ b) ^ b == a) by (bit_vector);
    }

    fn zero() -> (r: Self) {
        0
    }

    fn from_u8(byte: u8) -> (r: Self) {
        byte as u32
    }

    fn wrapping_add(self, rhs: Self) -> (r: Self) {
        proof {
            lemma2_to64();
            let modulus = 0x1_0000_0000int;
            assert(add_value(32, self as nat, rhs as nat) == (self + rhs) % modulus);
        }
        u32::wrapping_add(self, rhs)
    }

    fn wrapping_sub(self, rhs: Self) -> (r: Self) {
        proof {
            lemma2_to64();
            let modulus = 0x1_0000_0000int;
            assert(sub_value(32, self as nat, rhs as nat) == (self + modulus - rhs) % modulus);
        }
        u32::wrapping_sub(self, rhs)
    }

    fn bitxor(self, rhs: Self) -> (r: Self) {
        self ^ rhs
    }

    fn rotate_left(self, n: u32) -> (r: Self) {
        rotate_left_u32(self, n)
    }

    fn rotate_right(self, n: u32) -> (r: Self) {
        rotate_right_u32(self, n)
    }

    fn rem(self, rhs: Self) -> (r: Self) {
        self % rhs
    }

    fn to_u32(self) -> (r: Option<u32>) {
        Some(self)
    }

    fn from_le_bytes(bytes: &[u8]) -> (r: Self) {
        from_le_bytes_u32(bytes)
    }

    fn into_le_bytes(self) -> (r: Vec<u8>) {
        into_le_bytes_u32(self)
    }
}

} // verus!

//! Words: the fixed-width unsigned integers that RC5 computes with.
//!
//! RC5 is word-oriented: every basic operation takes `w`-bit words and gives
//! `w`-bit words, and a block is two words. The trait [`Word`] says what a word
//! type must offer and what each operation computes, over the natural number
//! that a word stands for. It is implemented for `u8`, `u16`, `u32`, `u64` and
//! `u128`.
use crate::arith::{
    add_value,
    le_bytes,
    le_value,
    lemma_add_sub_value,
    lemma_le_bytes_len,
    lemma_le_bytes_of_le_value,
    lemma_le_value_bound,
    lemma_le_value_of_le_bytes,
    lemma_rot_value_inverse,
    rotl_value,
    rotr_value,
    sub_value,
};
use vstd::arithmetic::div_mod::{lemma_add_mod_noop, lemma_mod_twice, lemma_small_mod};
use vstd::arithmetic::power2::{lemma2_to64, lemma_pow2_adds, lemma_pow2_pos, pow2};
use vstd::prelude::*;

verus! {

/// Magic constant `P`: `Odd((e - 2) * 2^w)`, where `e` is the base of the
/// natural logarithms and `w` the width of `Self` in bits.
pub trait GetP: Sized {
    const P: Self;
}

/// Magic constant `Q`: `Odd((phi - 1) * 2^w)`, where `phi` is the golden ratio
/// and `w` the width of `Self` in bits.
pub trait GetQ: Sized {
    const Q: Self;
}

/// A word of RC5.
///
/// A word stands for a natural number below `2^BITS`, its [`value`](Word::value),
/// and every number below `2^BITS` is the value of exactly one word. Addition and
/// subtraction wrap around at `2^BITS`, rotation moves the bits that leave at one
/// end back in at the other, and the bytes of a word are its value in base 256,
/// lowest digit first. Exclusive or is left to the implementing type, which must
/// show that it undoes itself.
pub trait Word: Copy + GetP + GetQ {
    /// Width of the word in bits: a multiple of 8.
    const BITS: u8;

    /// Width of the word in bytes.
    const BYTES: usize;

    /// Width of the word in bits, as contracts speak of it: what `BITS` holds.
    spec fn bits() -> nat;

    /// The natural number that the word stands for.
    spec fn value(self) -> nat;

    /// The word that stands for `v` modulo `2^BITS`.
    spec fn from_value(v: nat) -> Self;

    /// Bitwise exclusive or of two words.
    spec fn spec_xor(self, rhs: Self) -> Self;

    /// A word has whole bytes, and at least one. An implementation also
    /// states here what its `BITS`, `BYTES`, `P` and `Q` are.
    proof fn lemma_parameters()
        ensures
            8 <= Self::bits(),
            Self::bits() % 8 == 0,
            Self::BITS == Self::bits(),
            Self::BYTES == Self::bits() / 8,
    ;

    /// The value of a word is below `2^BITS`, and distinct words have distinct
    /// values.
    proof fn lemma_value(self)
        ensures
            self.value() < pow2(Self::bits()),
            Self::from_value(self.value()) == self,
    ;

    /// `from_value` reduces modulo `2^BITS`.
    proof fn lemma_from_value(v: nat)
        ensures
            Self::from_value(v).value() == v % pow2(Self::bits()),
    ;

    /// Exclusive or with the same word twice changes nothing.
    proof fn lemma_xor_twice(a: Self, b: Self)
        ensures
            a.spec_xor(b).spec_xor(b) == a,
    ;

    /// The word 0.
    fn zero() -> (r: Self)
        ensures
            r == Self::from_value(0),
    ;

    /// The word that stands for `byte`.
    fn from_u8(byte: u8) -> (r: Self)
        ensures
            r == Self::from_value(byte as nat),
    ;

    /// Addition modulo `2^BITS`.
    fn wrapping_add(self, rhs: Self) -> (r: Self)
        ensures
            r == Self::from_value(add_value(Self::bits(), self.value(), rhs.value())),
    ;

    /// Subtraction modulo `2^BITS`.
    fn wrapping_sub(self, rhs: Self) -> (r: Self)
        ensures
            r == Self::from_value(sub_value(Self::bits(), self.value(), rhs.value())),
    ;

    /// Bitwise exclusive or.
    fn bitxor(self, rhs: Self) -> (r: Self)
        ensures
            r == self.spec_xor(rhs),
    ;

    /// Rotation to the left by `n` bits, for `n` below the width.
    fn rotate_left(self, n: u32) -> (r: Self)
        requires
            n < Self::bits(),
        ensures
            r == Self::from_value(rotl_value(Self::bits(), self.value(), n as nat)),
    ;

    /// Rotation to the right by `n` bits, for `n` below the width.
    fn rotate_right(self, n: u32) -> (r: Self)
        requires
            n < Self::bits(),
        ensures
            r == Self::from_value(rotr_value(Self::bits(), self.value(), n as nat)),
    ;

    /// Remainder of the division of `self` by `rhs`.
    fn rem(self, rhs: Self) -> (r: Self)
        requires
            rhs.value() != 0,
        ensures
            r == Self::from_value(self.value() % rhs.value()),
    ;

    /// The value as a `u32`, where it fits.
    fn to_u32(self) -> (r: Option<u32>)
        ensures
            r == (if self.value() <= u32::MAX {
                Some(self.value() as u32)
            } else {
                None
            }),
    ;

    /// The word whose little-endian bytes are `bytes`.
    fn from_le_bytes(bytes: &[u8]) -> (r: Self)
        requires
            bytes@.len() == Self::bits() / 8,
        ensures
            r == Self::from_value(le_value(bytes@)),
    ;

    /// The little-endian bytes of the word.
    fn into_le_bytes(self) -> (r: Vec<u8>)
        ensures
            r@ == le_bytes(self.value(), Self::bits() / 8),
    ;
}

/// Width of a word of type `W` in bytes.
///
/// For a given type this is a number, and a proof about a buffer of a given
/// length goes through once it has named that number, as in
/// `assert(word_bytes::<u32>() == 4)`.
pub open spec fn word_bytes<W: Word>() -> nat {
    W::bits() / 8
}

/// `2^BITS`: the number of words of type `W`.
pub open spec fn modulus<W: Word>() -> nat {
    pow2(W::bits())
}

/// Sum of two words, modulo `2^BITS`.
pub open spec fn word_add<W: Word>(a: W, b: W) -> W {
    W::from_value(add_value(W::bits(), a.value(), b.value()))
}

/// Difference of two words, modulo `2^BITS`.
pub open spec fn word_sub<W: Word>(a: W, b: W) -> W {
    W::from_value(sub_value(W::bits(), a.value(), b.value()))
}

/// `a` rotated to the left by `n` bits.
pub open spec fn word_rotl<W: Word>(a: W, n: nat) -> W
    recommends
        n < W::bits(),
{
    W::from_value(rotl_value(W::bits(), a.value(), n))
}

/// `a` rotated to the right by `n` bits.
pub open spec fn word_rotr<W: Word>(a: W, n: nat) -> W
    recommends
        n < W::bits(),
{
    W::from_value(rotr_value(W::bits(), a.value(), n))
}

/// `a` rotated to the left by as many bits as the word `n` says, taken modulo
/// the width.
pub open spec fn rotl_word<W: Word>(a: W, n: W) -> W {
    word_rotl(a, n.value() % W::bits())
}

/// `a` rotated to the right by as many bits as the word `n` says, taken modulo
/// the width.
pub open spec fn rotr_word<W: Word>(a: W, n: W) -> W {
    word_rotr(a, n.value() % W::bits())
}

/// The word with the little-endian bytes `bytes`.
pub open spec fn word_from_le_bytes<W: Word>(bytes: Seq<u8>) -> W {
    W::from_value(le_value(bytes))
}

/// The little-endian bytes of `a`.
pub open spec fn word_le_bytes<W: Word>(a: W) -> Seq<u8> {
    le_bytes(a.value(), word_bytes::<W>())
}

/// Every number below `2^BITS` is the value of the word made from it.
pub proof fn lemma_value_of_small<W: Word>(v: nat)
    requires
        v < modulus::<W>(),
    ensures
        W::from_value(v).value() == v,
{
    W::lemma_from_value(v);
    lemma_small_mod(v, modulus::<W>());
}

/// There are at least 256 words, and more than the width in bits.
pub proof fn lemma_modulus<W: Word>()
    ensures
        256 <= modulus::<W>(),
        W::bits() < modulus::<W>(),
        modulus::<W>() == pow2(8 * word_bytes::<W>()),
{
    W::lemma_parameters();
    lemma2_to64();
    let rest = (W::bits() - 8) as nat;
    lemma_pow2_adds(8, rest);
    lemma_pow2_pos(rest);
    assert(256 * pow2(rest) >= 256) by (nonlinear_arith)
        requires
            pow2(rest) >= 1,
    ;
    assert(W::bits() == 8 + rest);
    assert(W::bits() == 8 * word_bytes::<W>());
}

/// Two words with the same value are the same word.
pub proof fn lemma_value_injective<W: Word>(a: W, b: W)
    requires
        a.value() == b.value(),
    ensures
        a == b,
{
    a.lemma_value();
    b.lemma_value();
}

/// Wrapping subtraction undoes wrapping addition, and wrapping addition undoes
/// wrapping subtraction.
pub proof fn lemma_add_sub<W: Word>(a: W, b: W)
    ensures
        word_sub(word_add(a, b), b) == a,
        word_add(word_sub(a, b), b) == a,
{
    let bits = W::bits();
    a.lemma_value();
    b.lemma_value();
    lemma_add_sub_value(bits, a.value(), b.value());
    lemma_value_of_small::<W>(add_value(bits, a.value(), b.value()));
    lemma_value_of_small::<W>(sub_value(bits, a.value(), b.value()));
}

/// Rotation to the right undoes rotation to the left by the same amount, and
/// the other way round.
pub proof fn lemma_rot_inverse<W: Word>(a: W, n: nat)
    requires
        n < W::bits(),
    ensures
        word_rotr(word_rotl(a, n), n) == a,
        word_rotl(word_rotr(a, n), n) == a,
{
    let bits = W::bits();
    a.lemma_value();
    lemma_rot_value_inverse(bits, a.value(), n);
    lemma_value_of_small::<W>(rotl_value(bits, a.value(), n));
    lemma_value_of_small::<W>(rotr_value(bits, a.value(), n));
}

/// Rotation by a word's worth of bits is undone by the opposite rotation by
/// the same word.
pub proof fn lemma_rot_word_inverse<W: Word>(a: W, n: W)
    ensures
        rotr_word(rotl_word(a, n), n) == a,
        rotl_word(rotr_word(a, n), n) == a,
{
    W::lemma_parameters();
    lemma_rot_inverse(a, n.value() % W::bits());
}

/// Only the amount modulo the width counts in a rotation by a word: two
/// amounts that are equal modulo `BITS` rotate alike.
pub proof fn lemma_rot_word_amount<W: Word>(a: W, n: W, m: W)
    requires
        n.value() % W::bits() == m.value() % W::bits(),
    ensures
        rotl_word(a, n) == rotl_word(a, m),
        rotr_word(a, n) == rotr_word(a, m),
{
}

/// A word has `BYTES` bytes, and is the word that its bytes spell.
pub proof fn lemma_word_of_its_bytes<W: Word>(a: W)
    ensures
        word_le_bytes(a).len() == word_bytes::<W>(),
        word_from_le_bytes::<W>(word_le_bytes(a)) == a,
{
    let len = word_bytes::<W>();
    a.lemma_value();
    lemma_modulus::<W>();
    lemma_le_bytes_len(a.value(), len);
    lemma_le_value_of_le_bytes(a.value(), len);
    lemma_small_mod(a.value(), modulus::<W>());
}

/// `BYTES` bytes are the bytes of the word that they spell.
pub proof fn lemma_bytes_of_their_word<W: Word>(bytes: Seq<u8>)
    requires
        bytes.len() == word_bytes::<W>(),
    ensures
        word_le_bytes(word_from_le_bytes::<W>(bytes)) == bytes,
{
    lemma_modulus::<W>();
    lemma_le_value_bound(bytes);
    lemma_value_of_small::<W>(le_value(bytes));
    lemma_le_bytes_of_le_value(bytes);
}

/// Rotation of a word to the left by another word's worth of bits.
pub trait RotateWordLeft: Word {
    /// Shifts the bits to the left by `n` modulo `BITS`, wrapping the bits
    /// that leave at the top to the bottom of the result.
    fn rotate_word_left(self, n: Self) -> (r: Self)
        ensures
            r == rotl_word(self, n),
    {
        proof {
            Self::lemma_parameters();
            lemma_modulus::<Self>();
            lemma_value_of_small::<Self>(Self::bits());
            n.lemma_value();
            lemma_value_of_small::<Self>(n.value() % Self::bits());
        }
        let amount = n.rem(Self::from_u8(Self::BITS)).to_u32();
        self.rotate_left(amount.unwrap())
    }
}

impl<W: Word> RotateWordLeft for W {

}

/// Rotation of a word to the right by another word's worth of bits.
pub trait RotateWordRight: Word {
    /// Shifts the bits to the right by `n` modulo `BITS`, wrapping the bits
    /// that leave at the bottom to the top of the result.
    fn rotate_word_right(self, n: Self) -> (r: Self)
        ensures
            r == rotr_word(self, n),
    {
        proof {
            Self::lemma_parameters();
            lemma_modulus::<Self>();
            lemma_value_of_small::<Self>(Self::bits());
            n.lemma_value();
            lemma_value_of_small::<Self>(n.value() % Self::bits());
        }
        let amount = n.rem(Self::from_u8(Self::BITS)).to_u32();
        self.rotate_right(amount.unwrap())
    }
}

impl<W: Word> RotateWordRight for W {

}

/// Term `i` of the arithmetic progression modulo `2^BITS` that starts at `P`
/// and goes up by `Q`.
pub open spec fn key_sequence_term<W: Word>(i: nat) -> W
    decreases i,
{
    if i == 0 {
        W::P
    } else {
        word_add(key_sequence_term::<W>((i - 1) as nat), W::Q)
    }
}

/// The first `len` terms of the progression.
pub open spec fn key_sequence<W: Word>(len: nat) -> Seq<W> {
    Seq::new(len, |i: int| key_sequence_term::<W>(i as nat))
}

/// `from_value` gives one word for all the numbers that are equal modulo
/// `2^BITS`.
pub proof fn lemma_from_value_mod<W: Word>(v: nat)
    ensures
        W::from_value(v % modulus::<W>()) == W::from_value(v),
{
    W::lemma_from_value(v);
    W::lemma_from_value(v % modulus::<W>());
    lemma_pow2_pos(W::bits());
    lemma_mod_twice(v as int, modulus::<W>() as int);
    lemma_value_injective(W::from_value(v % modulus::<W>()), W::from_value(v));
}

/// Term `i` of the key sequence is `P + i * Q` modulo `2^BITS`.
pub proof fn lemma_key_sequence_term<W: Word>(i: nat)
    ensures
        key_sequence_term::<W>(i) == W::from_value(W::P.value() + i * W::Q.value()),
    decreases i,
{
    let p = W::P.value();
    let q = W::Q.value();
    let m = modulus::<W>();
    W::P.lemma_value();
    W::Q.lemma_value();
    if i == 0 {
        assert(p + 0 * q == p);
    } else {
        let before = (i - 1) as nat;
        lemma_key_sequence_term::<W>(before);
        let sum = p + before * q;
        assert(sum + q == p + i * q) by (nonlinear_arith)
            requires
                sum == p + before * q,
                before == i - 1,
        ;
        W::lemma_from_value(sum);
        lemma_small_mod(q, m);
        lemma_add_mod_noop(sum as int, q as int, m as int);
        assert(add_value(W::bits(), sum % m, q) == (sum + q) % m);
        lemma_from_value_mod::<W>(sum + q);
    }
}

/// Arithmetic progression modulo `2^w` determined by the magic constants
/// `P_w` and `Q_w` of [`GetP`] and [`GetQ`].
pub struct PresudoRandomKeySequenceIterator<W: Word> {
    next: W,
}

impl<W: Word> PresudoRandomKeySequenceIterator<W> {
    /// The term that `next` hands out next.
    pub closed spec fn upcoming(&self) -> W {
        self.next
    }

    /// Hands out the upcoming term and moves on by `Q`. The progression has no
    /// end, so there is always a term.
    pub fn next(&mut self) -> (r: Option<W>)
        ensures
            r == Some(old(self).upcoming()),
            final(self).upcoming() == word_add(old(self).upcoming(), W::Q),
    {
        let current = self.next;
        self.next = self.next.wrapping_add(W::Q);
        Some(current)
    }

    /// The terms that a key schedule of `rounds_count` rounds starts from: the
    /// first `2 * (rounds_count + 1)` of the progression.
    pub fn collect_for_rounds_count(rounds_count: u8) -> (r: Vec<W>)
        ensures
            r@ == key_sequence::<W>(2 * (rounds_count as nat + 1)),
    {
        let count: usize = 2usize * (rounds_count as usize + 1usize);
        let mut sequence = PresudoRandomKeySequenceIterator::<W>::default();
        let mut terms: Vec<W> = Vec::with_capacity(count);
        while terms.len() < count
            invariant
                terms.len() <= count,
                terms@ == key_sequence::<W>(terms.len() as nat),
                sequence.upcoming() == key_sequence_term::<W>(terms.len() as nat),
            decreases count - terms.len(),
        {
            let term = sequence.next();
            terms.push(term.unwrap());
        }
        terms
    }
}

impl<W: Word> Default for PresudoRandomKeySequenceIterator<W> {
    /// The progression at its first term, `P`.
    fn default() -> (r: Self)
        ensures
            r.upcoming() == W::P,
    {
        Self { next: W::P }
    }
}

} // verus!

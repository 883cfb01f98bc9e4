//! Arithmetic on the natural numbers that words stand for.
//!
//! A word of `bits` bits is modelled by a natural number below `2^bits`.
//! Rotation, and the conversion between a number and its little-endian
//! bytes, are stated here over natural numbers, for every width at once.
use vstd::arithmetic::div_mod::{
    lemma_fundamental_div_mod,
    lemma_fundamental_div_mod_converse,
    lemma_small_mod,
};
use vstd::arithmetic::power2::{lemma2_to64, lemma_pow2_adds, lemma_pow2_pos, pow2};
use vstd::prelude::*;

verus! {

/// Sum of `a` and `b` modulo `2^bits`.
pub open spec fn add_value(bits: nat, a: nat, b: nat) -> nat {
    (a + b) % pow2(bits)
}

/// Difference of `a` and `b` modulo `2^bits`, for `b` below `2^bits`.
pub open spec fn sub_value(bits: nat, a: nat, b: nat) -> nat {
    ((a + pow2(bits) - b) as nat) % pow2(bits)
}

/// Rotation of the `bits`-bit number `v` to the left by `n` bits: the low
/// `bits - n` bits move up by `n`, and the `n` bits that leave at the top come
/// back in at the bottom.
pub open spec fn rotl_value(bits: nat, v: nat, n: nat) -> nat
    recommends
        n <= bits,
        v < pow2(bits),
{
    (v * pow2(n)) % pow2(bits) + v / pow2((bits - n) as nat)
}

/// Rotation of the `bits`-bit number `v` to the right by `n` bits: the high
/// `bits - n` bits move down by `n`, and the `n` bits that leave at the bottom
/// come back in at the top.
pub open spec fn rotr_value(bits: nat, v: nat, n: nat) -> nat
    recommends
        n <= bits,
        v < pow2(bits),
{
    v / pow2(n) + (v * pow2((bits - n) as nat)) % pow2(bits)
}

/// The number whose little-endian digits in base 256 are `bytes`.
pub open spec fn le_value(bytes: Seq<u8>) -> nat
    decreases bytes.len(),
{
    if bytes.len() == 0 {
        0
    } else {
        bytes[0] as nat + 256 * le_value(bytes.drop_first())
    }
}

/// The `len` lowest digits of `v` in base 256, lowest first.
pub open spec fn le_bytes(v: nat, len: nat) -> Seq<u8>
    decreases len,
{
    if len == 0 {
        Seq::empty()
    } else {
        seq![(v % 256) as u8] + le_bytes(v / 256, (len - 1) as nat)
    }
}

/// Adding `b` modulo `2^bits` and then subtracting it gives back `a`, and so
/// does subtracting first and adding afterwards.
pub proof fn lemma_add_sub_value(bits: nat, a: nat, b: nat)
    requires
        a < pow2(bits),
        b < pow2(bits),
    ensures
        add_value(bits, a, b) < pow2(bits),
        sub_value(bits, a, b) < pow2(bits),
        sub_value(bits, add_value(bits, a, b), b) == a,
        add_value(bits, sub_value(bits, a, b), b) == a,
{
    let m = pow2(bits);
    if a + b < m {
        lemma_small_mod(a + b, m);
        lemma_fundamental_div_mod_converse((a + m) as int, m as int, 1, a as int);
    } else {
        lemma_fundamental_div_mod_converse((a + b) as int, m as int, 1, a + b - m);
        lemma_small_mod((a + b - m + m - b) as nat, m);
    }
    if a >= b {
        lemma_fundamental_div_mod_converse(a + m - b, m as int, 1, a - b);
        lemma_small_mod(a, m);
    } else {
        lemma_small_mod((a + m - b) as nat, m);
        lemma_fundamental_div_mod_converse((a + m) as int, m as int, 1, a as int);
    }
}

/// A left rotation splits `v` at bit `bits - n` and swaps the two parts.
pub proof fn lemma_rotl_value_parts(bits: nat, v: nat, n: nat)
    requires
        n <= bits,
        v < pow2(bits),
    ensures
        rotl_value(bits, v, n) == (v % pow2((bits - n) as nat)) * pow2(n) + v / pow2(
            (bits - n) as nat,
        ),
        v / pow2((bits - n) as nat) < pow2(n),
        rotl_value(bits, v, n) < pow2(bits),
{
    let m = (bits - n) as nat;
    let pm = pow2(m) as int;
    let pn = pow2(n) as int;
    let pw = pow2(bits) as int;
    lemma_pow2_pos(m);
    lemma_pow2_pos(n);
    lemma_pow2_adds(n, m);
    assert(pw == pn * pm);
    let hi = v as int / pm;
    let lo = v as int % pm;
    lemma_fundamental_div_mod(v as int, pm);
    assert(hi < pn) by (nonlinear_arith)
        requires
            v == pm * hi + lo,
            0 <= lo,
            v < pn * pm,
            pm > 0,
    ;
    assert(0 <= hi) by (nonlinear_arith)
        requires
            v == pm * hi + lo,
            lo < pm,
            0 <= v,
            pm > 0,
    ;
    assert(v * pn == hi * (pn * pm) + lo * pn) by (nonlinear_arith)
        requires
            v == pm * hi + lo,
    ;
    assert(0 <= lo * pn && lo * pn + pn <= pn * pm) by (nonlinear_arith)
        requires
            0 <= lo < pm,
            pn > 0,
    ;
    lemma_fundamental_div_mod_converse(v * pn, pw, hi, lo * pn);
}

/// Rotating to the right by `n` is rotating to the left by `bits - n`.
pub proof fn lemma_rotr_is_rotl(bits: nat, v: nat, n: nat)
    requires
        n <= bits,
    ensures
        rotr_value(bits, v, n) == rotl_value(bits, v, (bits - n) as nat),
{
    assert((bits - (bits - n) as nat) as nat == n);
}

/// A left rotation by `n` followed by one by `bits - n` is the identity.
pub proof fn lemma_rotl_rotl_value(bits: nat, v: nat, n: nat)
    requires
        n <= bits,
        v < pow2(bits),
    ensures
        rotl_value(bits, v, n) < pow2(bits),
        rotl_value(bits, rotl_value(bits, v, n), (bits - n) as nat) == v,
{
    let m = (bits - n) as nat;
    let pm = pow2(m) as int;
    let pn = pow2(n) as int;
    lemma_pow2_pos(m);
    lemma_pow2_pos(n);
    lemma_rotl_value_parts(bits, v, n);
    let hi = v as int / pm;
    let lo = v as int % pm;
    lemma_fundamental_div_mod(v as int, pm);
    let y = rotl_value(bits, v, n);
    assert(y == lo * pn + hi);
    lemma_rotl_value_parts(bits, y, m);
    assert((bits - m) as nat == n);
    lemma_fundamental_div_mod_converse(y as int, pn, lo, hi);
    assert(rotl_value(bits, y, m) == hi * pm + lo);
    assert(hi * pm == pm * hi) by (nonlinear_arith);
}

/// Left and right rotation by the same amount undo each other.
pub proof fn lemma_rot_value_inverse(bits: nat, v: nat, n: nat)
    requires
        n <= bits,
        v < pow2(bits),
    ensures
        rotl_value(bits, v, n) < pow2(bits),
        rotr_value(bits, v, n) < pow2(bits),
        rotr_value(bits, rotl_value(bits, v, n), n) == v,
        rotl_value(bits, rotr_value(bits, v, n), n) == v,
{
    let m = (bits - n) as nat;
    lemma_rotl_rotl_value(bits, v, n);
    lemma_rotr_is_rotl(bits, rotl_value(bits, v, n), n);
    lemma_rotr_is_rotl(bits, v, n);
    lemma_rotl_rotl_value(bits, v, m);
    assert((bits - m) as nat == n);
}

/// Rotating by nothing changes nothing.
pub proof fn lemma_rotl_value_zero(bits: nat, v: nat)
    requires
        v < pow2(bits),
    ensures
        rotl_value(bits, v, 0) == v,
{
    lemma_rotl_value_parts(bits, v, 0);
    lemma2_to64();
    lemma_small_mod(v, pow2(bits));
}

/// Where the top `n` bits of `v` are clear, rotating to the left by `n` is
/// multiplying by `2^n`.
pub proof fn lemma_rotl_value_shift(bits: nat, v: nat, n: nat)
    requires
        n <= bits,
        v < pow2((bits - n) as nat),
    ensures
        rotl_value(bits, v, n) == v * pow2(n),
        v * pow2(n) < pow2(bits),
{
    let m = (bits - n) as nat;
    lemma_pow2_pos(n);
    lemma_pow2_adds(n, m);
    assert(v * pow2(n) < pow2(n) * pow2(m)) by (nonlinear_arith)
        requires
            v < pow2(m),
            pow2(n) > 0,
    ;
    assert(v < pow2(bits)) by (nonlinear_arith)
        requires
            v * pow2(n) < pow2(bits),
            pow2(n) > 0,
    ;
    lemma_rotl_value_parts(bits, v, n);
    lemma_small_mod(v, pow2(m));
    vstd::arithmetic::div_mod::lemma_basic_div(v as int, pow2(m) as int);
}

/// `le_bytes` gives as many bytes as it is asked for.
pub proof fn lemma_le_bytes_len(v: nat, len: nat)
    ensures
        le_bytes(v, len).len() == len,
    decreases len,
{
    if len > 0 {
        lemma_le_bytes_len(v / 256, (len - 1) as nat);
    }
}

/// The number that `bytes` spell is below `2^(8 * bytes.len())`.
pub proof fn lemma_le_value_bound(bytes: Seq<u8>)
    ensures
        le_value(bytes) < pow2(8 * bytes.len()),
    decreases bytes.len(),
{
    lemma2_to64();
    if bytes.len() > 0 {
        let rest = bytes.drop_first();
        lemma_le_value_bound(rest);
        lemma_pow2_adds(8, 8 * rest.len());
        assert(8 + 8 * rest.len() == 8 * bytes.len());
    }
}

/// The bytes of a number spell that number modulo `2^(8 * len)`.
pub proof fn lemma_le_value_of_le_bytes(v: nat, len: nat)
    ensures
        le_value(le_bytes(v, len)) == v % pow2(8 * len),
    decreases len,
{
    lemma2_to64();
    if len > 0 {
        let rest_len = (len - 1) as nat;
        let bytes = le_bytes(v, len);
        lemma_le_value_of_le_bytes(v / 256, rest_len);
        lemma_le_bytes_len(v / 256, rest_len);
        assert(bytes.drop_first() =~= le_bytes(v / 256, rest_len));
        lemma_pow2_adds(8, 8 * rest_len);
        lemma_pow2_pos(8 * rest_len);
        assert(8 + 8 * rest_len == 8 * len);
        let p = pow2(8 * rest_len) as int;
        let q = (v / 256) as int;
        lemma_fundamental_div_mod(q, p);
        lemma_fundamental_div_mod(v as int, 256);
        assert(v == (q / p) * (256 * p) + (v % 256 + 256 * (q % p))) by (nonlinear_arith)
            requires
                q == p * (q / p) + q % p,
                v == 256 * q + v % 256,
        ;
        lemma_fundamental_div_mod_converse(
            v as int,
            256 * p,
            q / p,
            v % 256 + 256 * (q % p),
        );
    }
}

/// The bytes of the number that `bytes` spell are `bytes` again.
pub proof fn lemma_le_bytes_of_le_value(bytes: Seq<u8>)
    ensures
        le_bytes(le_value(bytes), bytes.len()) == bytes,
    decreases bytes.len(),
{
    if bytes.len() > 0 {
        let rest = bytes.drop_first();
        lemma_le_bytes_of_le_value(rest);
        let v = le_value(bytes);
        lemma_fundamental_div_mod_converse(
            v as int,
            256,
            le_value(rest) as int,
            bytes[0] as int,
        );
        assert(le_bytes(v, bytes.len()) =~= bytes);
    } else {
        assert(le_bytes(le_value(bytes), 0) =~= bytes);
    }
}

/// Putting one more byte below the others multiplies what they spell by 256
/// and adds the new byte.
pub proof fn lemma_le_value_push_front(byte: u8, bytes: Seq<u8>)
    ensures
        le_value(seq![byte] + bytes) == byte as nat + 256 * le_value(bytes),
{
    assert((seq![byte] + bytes).drop_first() =~= bytes);
}

} // verus!

//! The key schedule: from the bytes of a secret key to the table of subkeys.
//!
//! The key is first expanded into words, then mixed with the pseudo-random key
//! sequence in three passes over the longer of the two.
use crate::arith::{
    add_value,
    le_value,
    lemma_le_value_bound,
    lemma_le_value_push_front,
    lemma_rotl_value_shift,
    lemma_rotl_value_zero,
    rotl_value,
};
use crate::word::{
    key_sequence,
    lemma_modulus,
    lemma_value_of_small,
    modulus,
    rotl_word,
    word_add,
    word_bytes,
    word_from_le_bytes,
    word_rotl,
    PresudoRandomKeySequenceIterator,
    RotateWordLeft,
    Word,
};
use vstd::arithmetic::div_mod::{
    lemma_fundamental_div_mod,
    lemma_fundamental_div_mod_converse,
    lemma_mod_bound,
    lemma_mod_self_0,
    lemma_small_mod,
};
use vstd::arithmetic::power2::{lemma2_to64, lemma_pow2_strictly_increases, pow2};
use vstd::prelude::*;

verus! {

/// A secret key: some bytes, and how many they are.
pub trait Key {
    /// Key length.
    /// Anyone implementing their own key type must provide the length of the
    /// key beforehand, and also make sure it fits in `u8`, which implies a length
    /// limit of 0 to 255 inclusive.
    const SIZE_HINT: u8;

    /// The bytes of the key.
    spec fn spec_secret(&self) -> Seq<u8>;

    /// Whether the key is well formed: whether it has exactly `SIZE_HINT`
    /// bytes. The cipher takes well-formed keys only.
    spec fn well_formed(&self) -> bool;

    /// The bytes of the key: `SIZE_HINT` of them, where the key is well
    /// formed.
    fn secret(&self) -> (s: &[u8])
        ensures
            s@ == self.spec_secret(),
            self.well_formed() ==> s@.len() == Self::SIZE_HINT,
    ;
}

/// A byte array is the key that it holds. Its size hint is its length, so it
/// is well formed where it has at most 255 bytes.
impl<const N: usize> Key for [u8; N] {
    const SIZE_HINT: u8 = N as u8;

    open spec fn spec_secret(&self) -> Seq<u8> {
        self@
    }

    open spec fn well_formed(&self) -> bool {
        N <= 255
    }

    fn secret(&self) -> (s: &[u8]) {
        self.as_slice()
    }
}

/// A borrowed key is the key that it borrows, so that a key need not be
/// copied or given away to be used.
impl<K: Key> Key for &K {
    const SIZE_HINT: u8 = K::SIZE_HINT;

    open spec fn spec_secret(&self) -> Seq<u8> {
        (**self).spec_secret()
    }

    open spec fn well_formed(&self) -> bool {
        (**self).well_formed()
    }

    fn secret(&self) -> (s: &[u8]) {
        (**self).secret()
    }
}

/// Number of words that a key of `key_len` bytes expands to, with words of
/// `word_bytes` bytes: as many as its bytes fill or touch, and one where there
/// is no byte at all.
pub open spec fn expanded_len(key_len: nat, word_bytes: nat) -> nat {
    if key_len == 0 {
        1
    } else {
        ((key_len + word_bytes - 1) / (word_bytes as int)) as nat
    }
}

/// The bytes of `key` that fall into word `k`, among those from index `from`
/// on.
pub open spec fn key_chunk(key: Seq<u8>, word_bytes: nat, k: int, from: nat) -> Seq<u8> {
    let end = if (k + 1) * word_bytes <= key.len() {
        (k + 1) * word_bytes
    } else {
        key.len() as int
    };
    let start = if k * word_bytes >= from {
        k * word_bytes
    } else {
        from as int
    };
    if start <= end {
        key.subrange(start, end)
    } else {
        Seq::empty()
    }
}

/// The words that the bytes of `key` from index `from` on spell: word `k` is
/// made of the bytes `k * BYTES` to `(k + 1) * BYTES - 1`, the lowest first,
/// and a byte that is not there counts as zero.
pub open spec fn expanded_from<W: Word>(key: Seq<u8>, from: nat) -> Seq<W> {
    Seq::new(
        expanded_len(key.len(), word_bytes::<W>()),
        |k: int| word_from_le_bytes::<W>(key_chunk(key, word_bytes::<W>(), k, from)),
    )
}

/// The key expanded into words: word `k` is made of the key bytes `k * BYTES`
/// to `(k + 1) * BYTES - 1`, the lowest first, and a byte past the end of the
/// key counts as zero. A key without bytes gives one zero word.
pub open spec fn expanded_key<W: Word>(key: Seq<u8>) -> Seq<W> {
    expanded_from::<W>(key, 0)
}

/// Where the quotient of a division lies.
proof fn lemma_quotient_bounds(i: nat, d: nat)
    requires
        d > 0,
    ensures
        (i / d) * d <= i < (i / d + 1) * d,
{
    lemma_fundamental_div_mod(i as int, d as int);
    assert((i / d) * d == d * (i / d)) by (nonlinear_arith);
    assert((i / d + 1) * d == d * (i / d) + d) by (nonlinear_arith);
}

/// Every byte of a key falls into one of the words that it expands to.
proof fn lemma_index_in_expanded(len: nat, d: nat, i: nat)
    requires
        d > 0,
        i < len,
    ensures
        i / d < expanded_len(len, d),
{
    lemma_quotient_bounds(i, d);
    lemma_quotient_bounds((len + d - 1) as nat, d);
    let q = i / d;
    let c = (len + d - 1) as nat / d;
    if q >= c {
        assert((q + 1) * d >= (c + 1) * d) by (nonlinear_arith)
            requires
                q >= c,
                d > 0,
        ;
        assert((q + 1) * d == q * d + d) by (nonlinear_arith);
    }
}

/// With no byte taken in yet, every word is zero.
pub proof fn lemma_expanded_from_end<W: Word>(key: Seq<u8>)
    ensures
        expanded_from::<W>(key, key.len()) == Seq::new(
            expanded_len(key.len(), word_bytes::<W>()),
            |k: int| W::from_value(0),
        ),
{
    let d = word_bytes::<W>();
    let words = expanded_from::<W>(key, key.len());
    assert forall|k: int| 0 <= k < words.len() implies #[trigger] words[k] == W::from_value(
        0,
    ) by {
        let chunk = key_chunk(key, d, k, key.len());
        assert(chunk.len() == 0);
    }
    assert(words =~= Seq::new(expanded_len(key.len(), d), |k: int| W::from_value(0)));
}

/// Taking in byte `i` changes the word that the byte falls into, and no other:
/// that word is rotated to the left by 8 bits, and the byte is added. So the
/// expanded key is what comes of taking the bytes in one by one, from the last
/// to the first, and the order matters: it is what puts the lowest byte of a
/// word first.
pub proof fn lemma_expanded_from_step<W: Word>(key: Seq<u8>, i: nat)
    requires
        i < key.len(),
    ensures
        i / word_bytes::<W>() < expanded_len(key.len(), word_bytes::<W>()),
        expanded_from::<W>(key, i) == expanded_from::<W>(key, i + 1).update(
            (i / word_bytes::<W>()) as int,
            word_add(
                rotl_word(
                    expanded_from::<W>(key, i + 1)[(i / word_bytes::<W>()) as int],
                    W::from_value(8),
                ),
                W::from_value(key[i as int] as nat),
            ),
        ),
{
    W::lemma_parameters();
    lemma_modulus::<W>();
    lemma2_to64();
    let d = word_bytes::<W>();
    let bits = W::bits();
    let q = i / d;
    let before = expanded_from::<W>(key, i + 1);
    let after = expanded_from::<W>(key, i);
    lemma_quotient_bounds(i, d);
    lemma_index_in_expanded(key.len(), d, i);
    let old_chunk = key_chunk(key, d, q as int, i + 1);
    let new_chunk = key_chunk(key, d, q as int, i);
    assert((q + 1) * d == q * d + d) by (nonlinear_arith);
    assert(new_chunk =~= seq![key[i as int]] + old_chunk);
    lemma_le_value_push_front(key[i as int], old_chunk);
    lemma_le_value_bound(old_chunk);
    lemma_le_value_bound(new_chunk);
    let old_value = le_value(old_chunk);
    let new_value = le_value(new_chunk);
    // The chunk that is there so far leaves the top byte of the word free.
    assert(old_chunk.len() + 1 <= d);
    assert(pow2(8 * old_chunk.len()) <= pow2((bits - 8) as nat)) by {
        if 8 * old_chunk.len() < bits - 8 {
            lemma_pow2_strictly_increases(8 * old_chunk.len(), (bits - 8) as nat);
        }
    }
    assert(pow2(8 * new_chunk.len()) <= pow2(bits)) by {
        if 8 * new_chunk.len() < bits {
            lemma_pow2_strictly_increases(8 * new_chunk.len(), bits);
        }
    }
    lemma_rotl_value_shift(bits, old_value, 8);
    lemma_value_of_small::<W>(8);
    lemma_value_of_small::<W>(old_value);
    lemma_value_of_small::<W>(key[i as int] as nat);
    let amount = 8nat % bits;
    let rotated = rotl_value(bits, old_value, amount);
    assert(rotated == old_value * 256) by {
        if bits == 8 {
            assert(old_chunk.len() == 0);
            assert(old_value == 0);
            lemma_mod_self_0(bits as int);
            lemma_rotl_value_zero(bits, old_value);
        } else {
            lemma_small_mod(8, bits);
            assert(amount == 8);
            assert(old_value * pow2(8) == old_value * 256);
        }
    }
    lemma_value_of_small::<W>(rotated);
    lemma_small_mod(new_value, modulus::<W>());
    assert(add_value(bits, rotated, key[i as int] as nat) == new_value);
    assert forall|k: int| 0 <= k < after.len() && k != q implies after[k] == before[k] by {
        if k < q {
            assert((k + 1) * d <= q * d) by (nonlinear_arith)
                requires
                    k + 1 <= q,
                    d > 0,
            ;
        } else {
            assert(k * d >= (q + 1) * d) by (nonlinear_arith)
                requires
                    k >= q + 1,
                    d > 0,
            ;
        }
        assert(key_chunk(key, d, k, i) =~= key_chunk(key, d, k, i + 1));
    }
    assert(after =~= before.update(
        q as int,
        word_add(
            rotl_word(before[q as int], W::from_value(8)),
            W::from_value(key[i as int] as nat),
        ),
    ));
}

/// Converting the secret key from bytes to words.
///
/// Copies the secret key `K[0..b-1]` into an array `L[0..c-1]` of
/// `c = ceil(b / u)` words, where `u = w / 8` is the number of bytes per word.
/// Any unfilled byte positions of `L` are zeroes. In the case that `b = 0`, `c`
/// is 1 and `L[0]` is zero.
///
/// The bytes are taken in from the last to the first, each rotating its word
/// by 8 bits and adding itself, which packs them lowest byte first.
pub fn expand_key_to_words<W: Word, K: Key>(key: &K) -> (words: Vec<W>)
    requires
        key.well_formed(),
    ensures
        words@ == expanded_key::<W>(key.spec_secret()),
        0 < words@.len() <= 255,
{
    proof {
        W::lemma_parameters();
    }
    let size: usize = K::SIZE_HINT as usize;
    let len: usize = if size == 0 {
        1
    } else {
        (size + W::BYTES - 1) / W::BYTES
    };
    let mut words: Vec<W> = Vec::with_capacity(len);
    while words.len() < len
        invariant
            words.len() <= len,
            words@ == Seq::new(words.len() as nat, |k: int| W::from_value(0)),
        decreases len - words.len(),
    {
        words.push(W::zero());
    }
    let secret = key.secret();
    proof {
        lemma_expanded_from_end::<W>(secret@);
    }
    let mut index_secret: usize = size;
    while index_secret > 0
        invariant
            W::BYTES > 0,
            W::BYTES == word_bytes::<W>(),
            index_secret <= size,
            size == secret@.len(),
            words@ == expanded_from::<W>(secret@, index_secret as nat),
        decreases index_secret,
    {
        index_secret = index_secret - 1;
        proof {
            lemma_expanded_from_step::<W>(secret@, index_secret as nat);
        }
        let word_index = index_secret / W::BYTES;
        let word = words[word_index].rotate_word_left(W::from_u8(8u8)).wrapping_add(
            W::from_u8(secret[index_secret]),
        );
        words.set(word_index, word);
    }
    proof {
        lemma_expanded_len_positive(size as nat, word_bytes::<W>());
        if size > 0 {
            lemma_expanded_len_bound(size as nat, word_bytes::<W>());
        }
    }
    words
}

/// What the mixing carries from one step to the next: the table of subkeys
/// `S`, the key words `L`, and the two accumulators `A` and `B`.
pub struct MixState<W> {
    pub table: Seq<W>,
    pub key_words: Seq<W>,
    pub a: W,
    pub b: W,
}

/// What the mixing starts from: the two sequences as given, and both
/// accumulators zero.
pub open spec fn mix_start<W: Word>(table: Seq<W>, key_words: Seq<W>) -> MixState<W> {
    MixState { table, key_words, a: W::from_value(0), b: W::from_value(0) }
}

/// Step `step` of the mixing, counted from 0. With `i` and `j` the step number
/// modulo the lengths of `S` and `L`:
/// `A = S[i] = (S[i] + A + B) <<< 3`, then
/// `B = L[j] = (L[j] + A + B) <<< (A + B)`.
pub open spec fn mix_step<W: Word>(state: MixState<W>, step: nat) -> MixState<W> {
    let i = (step % state.table.len()) as int;
    let j = (step % state.key_words.len()) as int;
    let a = word_rotl(word_add(word_add(state.table[i], state.a), state.b), 3);
    let b = rotl_word(word_add(word_add(state.key_words[j], a), state.b), word_add(a, state.b));
    MixState { table: state.table.update(i, a), key_words: state.key_words.update(j, b), a, b }
}

/// The state after the first `steps` steps of the mixing.
pub open spec fn mix_steps<W: Word>(table: Seq<W>, key_words: Seq<W>, steps: nat) -> MixState<W>
    decreases steps,
{
    if steps == 0 {
        mix_start(table, key_words)
    } else {
        mix_step(mix_steps(table, key_words, (steps - 1) as nat), (steps - 1) as nat)
    }
}

/// Number of steps of the mixing: three passes over the longer of the two
/// sequences.
pub open spec fn mix_count(table_len: nat, key_len: nat) -> nat {
    if table_len >= key_len {
        3 * table_len
    } else {
        3 * key_len
    }
}

/// The table of subkeys of `key` for `rounds_count` rounds: the first
/// `2 * (rounds_count + 1)` terms of the key sequence, mixed with the
/// expanded key.
pub open spec fn subkeys<W: Word>(key: Seq<u8>, rounds_count: u8) -> Seq<W> {
    let table = key_sequence::<W>(2 * (rounds_count as nat + 1));
    let key_words = expanded_key::<W>(key);
    mix_steps(table, key_words, mix_count(table.len(), key_words.len())).table
}

/// A key expands to at least one word.
pub proof fn lemma_expanded_len_positive(key_len: nat, word_bytes: nat)
    requires
        word_bytes > 0,
    ensures
        expanded_len(key_len, word_bytes) >= 1,
{
    if key_len > 0 {
        lemma_index_in_expanded(key_len, word_bytes, 0);
    }
}

/// A key expands to no more words than it has bytes, but for the one word
/// of a key without bytes.
pub proof fn lemma_expanded_len_bound(key_len: nat, word_bytes: nat)
    requires
        word_bytes > 0,
        key_len > 0,
    ensures
        expanded_len(key_len, word_bytes) <= key_len,
{
    let count = expanded_len(key_len, word_bytes);
    lemma_quotient_bounds((key_len + word_bytes - 1) as nat, word_bytes);
    if count > key_len {
        assert(count * word_bytes >= key_len * word_bytes + word_bytes) by (nonlinear_arith)
            requires
                count >= key_len + 1,
        ;
        assert(key_len * word_bytes >= key_len) by (nonlinear_arith)
            requires
                word_bytes >= 1,
        ;
    }
}

/// The mixing changes words and never the lengths of the two sequences.
pub proof fn lemma_mix_steps_len<W: Word>(table: Seq<W>, key_words: Seq<W>, steps: nat)
    requires
        table.len() > 0,
        key_words.len() > 0,
    ensures
        mix_steps(table, key_words, steps).table.len() == table.len(),
        mix_steps(table, key_words, steps).key_words.len() == key_words.len(),
    decreases steps,
{
    if steps > 0 {
        let before = (steps - 1) as nat;
        lemma_mix_steps_len(table, key_words, before);
        lemma_mod_bound(before as int, table.len() as int);
        lemma_mod_bound(before as int, key_words.len() as int);
    }
}

/// A table of subkeys has two words for every round, and two more.
pub proof fn lemma_subkeys_len<W: Word>(key: Seq<u8>, rounds_count: u8)
    ensures
        subkeys::<W>(key, rounds_count).len() == 2 * (rounds_count + 1),
{
    W::lemma_parameters();
    let table = key_sequence::<W>(2 * (rounds_count as nat + 1));
    let key_words = expanded_key::<W>(key);
    lemma_expanded_len_positive(key.len(), word_bytes::<W>());
    lemma_mix_steps_len(table, key_words, mix_count(table.len(), key_words.len()));
}

/// The remainder of the next number is the next remainder, which is zero at
/// the end of a turn.
proof fn lemma_mod_successor(step: nat, len: nat)
    requires
        len > 0,
    ensures
        step % len < len,
        (step + 1) % len == (step % len + 1) % len,
{
    lemma_fundamental_div_mod(step as int, len as int);
    lemma_mod_bound(step as int, len as int);
    let q = step as int / len as int;
    let r = step as int % len as int;
    if r + 1 == len {
        assert(step + 1 == (q + 1) * len + 0) by (nonlinear_arith)
            requires
                step == len * q + r,
                r + 1 == len,
        ;
        lemma_fundamental_div_mod_converse((step + 1) as int, len as int, q + 1, 0);
        lemma_mod_self_0(len as int);
    } else {
        assert(step + 1 == q * len + (r + 1)) by (nonlinear_arith)
            requires
                step == len * q + r,
        ;
        lemma_fundamental_div_mod_converse((step + 1) as int, len as int, q, r + 1);
        lemma_small_mod((r + 1) as nat, len);
    }
}

/// The key schedule of RC5.
pub trait MixinKey: Key + Sized {
    /// RC5 key mixing.
    ///
    /// Mixes the secret key into the pseudo-random key sequence, and gives
    /// the table of `2 * (rounds_count + 1)` subkeys.
    fn mixin<W: Word>(&self, rounds_count: u8) -> (mixed_key: Vec<W>)
        requires
            self.well_formed(),
        ensures
            mixed_key@ == subkeys::<W>(self.spec_secret(), rounds_count),
            mixed_key@.len() == 2 * (rounds_count + 1),
    {
        let mut mixed_key = PresudoRandomKeySequenceIterator::<W>::collect_for_rounds_count(
            rounds_count,
        );
        let mut key_words = expand_key_to_words::<W, Self>(self);
        let ghost table = mixed_key@;
        let ghost words = key_words@;
        proof {
            W::lemma_parameters();
            lemma_expanded_len_positive(self.spec_secret().len(), word_bytes::<W>());
            lemma_subkeys_len::<W>(self.spec_secret(), rounds_count);
            lemma_small_mod(0, table.len());
            lemma_small_mod(0, words.len());
        }
        let table_len = mixed_key.len();
        let words_len = key_words.len();
        let count: usize = if table_len >= words_len {
            3 * table_len
        } else {
            3 * words_len
        };
        let mut a = W::zero();
        let mut b = W::zero();
        let mut i: usize = 0;
        let mut j: usize = 0;
        let mut step: usize = 0;
        while step < count
            invariant
                step <= count,
                count == mix_count(table.len(), words.len()),
                table_len == table.len(),
                words_len == words.len(),
                0 < table_len,
                0 < words_len,
                8 <= W::bits(),
                i == step % table_len,
                j == step % words_len,
                mixed_key@ == mix_steps(table, words, step as nat).table,
                key_words@ == mix_steps(table, words, step as nat).key_words,
                a == mix_steps(table, words, step as nat).a,
                b == mix_steps(table, words, step as nat).b,
            decreases count - step,
        {
            proof {
                lemma_mix_steps_len(table, words, step as nat);
                lemma_mod_successor(step as nat, table_len as nat);
                lemma_mod_successor(step as nat, words_len as nat);
            }
            a = mixed_key[i].wrapping_add(a).wrapping_add(b).rotate_left(3);
            mixed_key.set(i, a);
            b = key_words[j].wrapping_add(a).wrapping_add(b).rotate_word_left(
                a.wrapping_add(b),
            );
            key_words.set(j, b);
            i = (i + 1) % table_len;
            j = (j + 1) % words_len;
            step = step + 1;
        }
        mixed_key
    }
}

impl<K: Key + Sized> MixinKey for K {

}

} // verus!

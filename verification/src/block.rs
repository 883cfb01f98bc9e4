//! Blocks: the round function on two words, and the codec that applies it to
//! a buffer of bytes, block by block.
use crate::key::{subkeys, Key, MixinKey};
use crate::word::{
    lemma_add_sub,
    lemma_bytes_of_their_word,
    lemma_rot_word_inverse,
    lemma_word_of_its_bytes,
    rotl_word,
    rotr_word,
    word_add,
    word_bytes,
    word_from_le_bytes,
    word_le_bytes,
    word_sub,
    RotateWordLeft,
    RotateWordRight,
    Word,
};
use vstd::prelude::*;

verus! {

/// Why a buffer could not be processed.
#[derive(Debug, Clone, Copy, PartialEq, Eq, Structural)]
pub enum Error {
    /// The input data must be a multiple of the word bytes len, and hold an
    /// even number of words.
    WrongInputSize,
}

/// A block encoded with `rounds` rounds under the subkeys `key_table`.
///
/// With no round, the first two subkeys are added to the two words. Round `i`
/// then takes `(A, B)` to `A' = ((A ^ B) <<< B) + S[2i]` and
/// `B' = ((B ^ A') <<< A') + S[2i + 1]`.
pub open spec fn encode_block<W: Word>(block: (W, W), key_table: Seq<W>, rounds: nat) -> (W, W)
    decreases rounds,
{
    if rounds == 0 {
        (word_add(block.0, key_table[0]), word_add(block.1, key_table[1]))
    } else {
        let before = encode_block(block, key_table, (rounds - 1) as nat);
        let a = word_add(
            rotl_word(before.0.spec_xor(before.1), before.1),
            key_table[2 * rounds as int],
        );
        let b = word_add(rotl_word(before.1.spec_xor(a), a), key_table[2 * rounds as int + 1]);
        (a, b)
    }
}

/// A block decoded with `rounds` rounds under the subkeys `key_table`.
///
/// The rounds are undone from the last to the first: round `i` takes `(A, B)`
/// to `B' = ((B - S[2i + 1]) >>> A) ^ A` and `A' = ((A - S[2i]) >>> B') ^ B'`.
/// With no round left, the first two subkeys are subtracted.
pub open spec fn decode_block<W: Word>(block: (W, W), key_table: Seq<W>, rounds: nat) -> (W, W)
    decreases rounds,
{
    if rounds == 0 {
        (word_sub(block.0, key_table[0]), word_sub(block.1, key_table[1]))
    } else {
        let b = rotr_word(word_sub(block.1, key_table[2 * rounds as int + 1]), block.0).spec_xor(
            block.0,
        );
        let a = rotr_word(word_sub(block.0, key_table[2 * rounds as int]), b).spec_xor(b);
        decode_block((a, b), key_table, (rounds - 1) as nat)
    }
}

/// Decoding gives back the block that was encoded, whatever the subkeys and
/// the number of rounds.
pub proof fn lemma_decode_encode_block<W: Word>(block: (W, W), key_table: Seq<W>, rounds: nat)
    ensures
        decode_block(encode_block(block, key_table, rounds), key_table, rounds) == block,
    decreases rounds,
{
    if rounds == 0 {
        lemma_add_sub(block.0, key_table[0]);
        lemma_add_sub(block.1, key_table[1]);
    } else {
        let before = encode_block(block, key_table, (rounds - 1) as nat);
        let mixed_a = before.0.spec_xor(before.1);
        let a = word_add(rotl_word(mixed_a, before.1), key_table[2 * rounds as int]);
        let mixed_b = before.1.spec_xor(a);
        let b = word_add(rotl_word(mixed_b, a), key_table[2 * rounds as int + 1]);
        lemma_add_sub(rotl_word(mixed_b, a), key_table[2 * rounds as int + 1]);
        lemma_rot_word_inverse(mixed_b, a);
        W::lemma_xor_twice(before.1, a);
        lemma_add_sub(rotl_word(mixed_a, before.1), key_table[2 * rounds as int]);
        lemma_rot_word_inverse(mixed_a, before.1);
        W::lemma_xor_twice(before.0, before.1);
        lemma_decode_encode_block(block, key_table, (rounds - 1) as nat);
    }
}

/// Encoding gives back the block that was decoded, whatever the subkeys and
/// the number of rounds.
pub proof fn lemma_encode_decode_block<W: Word>(block: (W, W), key_table: Seq<W>, rounds: nat)
    ensures
        encode_block(decode_block(block, key_table, rounds), key_table, rounds) == block,
    decreases rounds,
{
    if rounds == 0 {
        lemma_add_sub(block.0, key_table[0]);
        lemma_add_sub(block.1, key_table[1]);
    } else {
        let shifted_b = word_sub(block.1, key_table[2 * rounds as int + 1]);
        let b = rotr_word(shifted_b, block.0).spec_xor(block.0);
        let shifted_a = word_sub(block.0, key_table[2 * rounds as int]);
        let a = rotr_word(shifted_a, b).spec_xor(b);
        lemma_encode_decode_block((a, b), key_table, (rounds - 1) as nat);
        W::lemma_xor_twice(rotr_word(shifted_a, b), b);
        lemma_rot_word_inverse(shifted_a, b);
        lemma_add_sub(block.0, key_table[2 * rounds as int]);
        W::lemma_xor_twice(rotr_word(shifted_b, block.0), block.0);
        lemma_rot_word_inverse(shifted_b, block.0);
        lemma_add_sub(block.1, key_table[2 * rounds as int + 1]);
    }
}

/// RC5 encoding of one block.
pub fn rc5_encode<W: Word>(block: (W, W), key_table: &[W], round_count: u8) -> (r: (W, W))
    requires
        key_table@.len() >= 2 * (round_count + 1),
    ensures
        r == encode_block(block, key_table@, round_count as nat),
{
    let (mut a, mut b) = block;

    a = a.wrapping_add(key_table[0]);
    b = b.wrapping_add(key_table[1]);
    let mut index: usize = 1;
    while index <= round_count as usize
        invariant
            1 <= index <= round_count + 1,
            key_table@.len() >= 2 * (round_count + 1),
            (a, b) == encode_block(block, key_table@, (index - 1) as nat),
        decreases round_count + 1 - index,
    {
        a = a.bitxor(b).rotate_word_left(b).wrapping_add(key_table[2 * index]);
        b = b.bitxor(a).rotate_word_left(a).wrapping_add(key_table[2 * index + 1]);
        index = index + 1;
    }
    (a, b)
}

/// RC5 decoding of one block.
pub fn rc5_decode<W: Word>(block: (W, W), key_table: &[W], round_count: u8) -> (r: (W, W))
    requires
        key_table@.len() >= 2 * (round_count + 1),
    ensures
        r == decode_block(block, key_table@, round_count as nat),
{
    let (mut a, mut b) = block;

    let mut index: usize = round_count as usize;
    while index >= 1
        invariant
            index <= round_count,
            key_table@.len() >= 2 * (round_count + 1),
            decode_block((a, b), key_table@, index as nat) == decode_block(
                block,
                key_table@,
                round_count as nat,
            ),
        decreases index,
    {
        b = b.wrapping_sub(key_table[2 * index + 1]).rotate_word_right(a).bitxor(a);
        a = a.wrapping_sub(key_table[2 * index]).rotate_word_right(b).bitxor(b);
        index = index - 1;
    }
    b = b.wrapping_sub(key_table[1]);
    a = a.wrapping_sub(key_table[0]);

    (a, b)
}

/// Whether a buffer of `len` bytes is made of whole blocks of two words of
/// `W`: whole words, and an even number of them.
pub open spec fn splits_into_blocks<W: Word>(len: nat) -> bool {
    len % word_bytes::<W>() == 0 && (len / word_bytes::<W>()) % 2 == 0
}

/// Number of blocks of two words of `W` in a buffer of `len` bytes.
pub open spec fn block_count<W: Word>(len: nat) -> nat {
    len / word_bytes::<W>() / 2
}

/// Word `i` of a buffer: the word spelled by the bytes `i * BYTES` to
/// `(i + 1) * BYTES - 1`.
pub open spec fn word_at<W: Word>(bytes: Seq<u8>, i: int) -> W {
    word_from_le_bytes::<W>(
        bytes.subrange(i * (word_bytes::<W>() as int), (i + 1) * (word_bytes::<W>() as int)),
    )
}

/// Block `k` of a buffer: its words `2 * k` and `2 * k + 1`.
pub open spec fn block_at<W: Word>(bytes: Seq<u8>, k: int) -> (W, W) {
    (word_at::<W>(bytes, 2 * k), word_at::<W>(bytes, 2 * k + 1))
}

/// `itertools::Itertools::chunks`, each chunk collected into a vector; it
/// panics on a chunk size of 0. Trusted: the chunks hold the items in their
/// order, `size` by `size`, and where the items do not fill the last chunk it
/// is shorter and holds those that are left.
#[verifier::external_body]
fn chunks_of<T>(items: Vec<T>, size: usize) -> (chunks: Vec<Vec<T>>)
    requires
        size > 0,
    ensures
        chunks@.len() == (items@.len() + size - 1) / (size as int),
        forall|k: int|
            0 <= k < chunks@.len() ==> (#[trigger] chunks@[k])@ == items@.subrange(
                k * size,
                if (k + 1) * size <= items@.len() {
                    (k + 1) * size
                } else {
                    items@.len() as int
                },
            ),
{
    let chunks = itertools::Itertools::chunks(items.into_iter(), size);
    chunks.into_iter().map(|chunk| chunk.collect()).collect()
}

/// Where word `i` of a buffer of `count` words lies in it.
proof fn lemma_word_range(count: nat, i: nat, word_bytes: nat)
    requires
        i < count,
    ensures
        i * word_bytes + word_bytes == (i + 1) * word_bytes,
        (i + 1) * word_bytes <= count * word_bytes,
{
    assert(i * word_bytes + word_bytes == (i + 1) * word_bytes) by (nonlinear_arith);
    assert((i + 1) * word_bytes <= count * word_bytes) by (nonlinear_arith)
        requires
            i + 1 <= count,
    ;
}

/// A buffer of whole words has as many bytes as its words have together.
proof fn lemma_word_count(len: nat, word_bytes: nat)
    requires
        word_bytes > 0,
        len % word_bytes == 0,
    ensures
        (len / word_bytes) * word_bytes == len,
{
    vstd::arithmetic::div_mod::lemma_fundamental_div_mod(len as int, word_bytes as int);
    assert((len / word_bytes) * word_bytes == word_bytes * (len / word_bytes))
        by (nonlinear_arith);
}

/// The function splits the input into words and then into blocks, and
/// executes `processor` on each block.
///
/// Fails with [`Error::WrongInputSize`] exactly where the input cannot be
/// divided into blocks. Otherwise the output is as long as the input, and each
/// of its blocks is what `processor` made of the block at the same place of the
/// input.
pub fn process_blocks<W: Word>(input: &[u8], processor: impl Fn((W, W)) -> (W, W)) -> (r: Result<
    Vec<u8>,
    Error,
>)
    requires
        forall|block: (W, W)| call_requires(processor, (block,)),
    ensures
        match r {
            Ok(output) => {
                &&& splits_into_blocks::<W>(input@.len())
                &&& output@.len() == input@.len()
                &&& forall|k: int|
                    0 <= k < block_count::<W>(input@.len()) ==> call_ensures(
                        processor,
                        (#[trigger] block_at::<W>(input@, k),),
                        block_at::<W>(output@, k),
                    )
            },
            Err(e) => !splits_into_blocks::<W>(input@.len()) && e == Error::WrongInputSize,
        },
{
    proof {
        W::lemma_parameters();
    }
    if input.len() % W::BYTES != 0 {
        return Err(Error::WrongInputSize);
    }
    let word_count = input.len() / W::BYTES;
    proof {
        lemma_word_count(input@.len(), word_bytes::<W>());
    }
    let mut words: Vec<W> = Vec::with_capacity(word_count);
    while words.len() < word_count
        invariant
            words.len() <= word_count,
            W::BYTES == word_bytes::<W>(),
            word_count * word_bytes::<W>() == input@.len(),
            input@.len() <= usize::MAX,
            forall|i: int| 0 <= i < words.len() ==> words@[i] == word_at::<W>(input@, i),
        decreases word_count - words.len(),
    {
        let index = words.len();
        proof {
            lemma_word_range(word_count as nat, index as nat, word_bytes::<W>());
        }
        let start = index * W::BYTES;
        let word = W::from_le_bytes(&input[start..start + W::BYTES]);
        words.push(word);
    }
    let ghost all_words = words@;
    let pairs = chunks_of(words, 2);
    let mut result: Vec<u8> = Vec::with_capacity(input.len());
    let mut index: usize = 0;
    while index < pairs.len()
        invariant
            index <= pairs.len(),
            pairs@.len() == (word_count + 1) / 2,
            all_words.len() == word_count,
            word_bytes::<W>() > 0,
            word_count == input@.len() / word_bytes::<W>(),
            input@.len() % word_bytes::<W>() == 0,
            word_count * word_bytes::<W>() == input@.len(),
            forall|i: int| 0 <= i < word_count ==> all_words[i] == word_at::<W>(input@, i),
            forall|k: int|
                0 <= k < pairs@.len() ==> (#[trigger] pairs@[k])@ == all_words.subrange(
                    2 * k,
                    if 2 * k + 2 <= word_count {
                        2 * k + 2
                    } else {
                        word_count as int
                    },
                ),
            forall|block: (W, W)| call_requires(processor, (block,)),
            2 * index <= word_count,
            result@.len() == 2 * index * word_bytes::<W>(),
            forall|k: int|
                0 <= k < index ==> call_ensures(
                    processor,
                    (#[trigger] block_at::<W>(input@, k),),
                    block_at::<W>(result@, k),
                ),
        decreases pairs.len() - index,
    {
        let pair = &pairs[index];
        if pair.len() != 2 {
            return Err(Error::WrongInputSize);
        }
        let block = processor((pair[0], pair[1]));
        let mut low = block.0.into_le_bytes();
        let mut high = block.1.into_le_bytes();
        let ghost before = result@;
        result.append(&mut low);
        result.append(&mut high);
        proof {
            let width = word_bytes::<W>() as int;
            let k = index as int;
            assert(width > 0);
            lemma_word_of_its_bytes(block.0);
            lemma_word_of_its_bytes(block.1);
            assert(pair@[0] == all_words[2 * k]);
            assert(pair@[1] == all_words[2 * k + 1]);
            assert(2 * k * width + width == (2 * k + 1) * width) by (nonlinear_arith);
            assert((2 * k + 1) * width + width == (2 * k + 2) * width) by (nonlinear_arith);
            assert(2 * (k + 1) * width == (2 * k + 2) * width) by (nonlinear_arith);
            assert(result@.subrange(2 * k * width, (2 * k + 1) * width) =~= word_le_bytes(
                block.0,
            ));
            assert(result@.subrange((2 * k + 1) * width, (2 * k + 2) * width) =~= word_le_bytes(
                block.1,
            ));
            assert(block_at::<W>(result@, k) == block);
            assert forall|j: int| 0 <= j < k implies call_ensures(
                processor,
                (#[trigger] block_at::<W>(input@, j),),
                block_at::<W>(result@, j),
            ) by {
                assert((2 * j + 2) * width <= 2 * k * width) by (nonlinear_arith)
                    requires
                        j + 1 <= k,
                        width > 0,
                ;
                assert(2 * j * width + width == (2 * j + 1) * width) by (nonlinear_arith);
                assert((2 * j + 1) * width + width == (2 * j + 2) * width) by (nonlinear_arith);
                assert(0 <= 2 * j * width) by (nonlinear_arith)
                    requires
                        0 <= j,
                        width > 0,
                ;
                assert(result@.subrange(2 * j * width, (2 * j + 1) * width) =~= before.subrange(
                    2 * j * width,
                    (2 * j + 1) * width,
                ));
                assert(result@.subrange((2 * j + 1) * width, (2 * j + 2) * width)
                    =~= before.subrange((2 * j + 1) * width, (2 * j + 2) * width));
                assert(block_at::<W>(result@, j) == block_at::<W>(before, j));
            }
        }
        index = index + 1;
    }
    proof {
        if word_count % 2 != 0 {
            let last = pairs@.len() - 1;
            assert(pairs@[last]@.len() == 1);
        }
    }
    Ok(result)
}

/// The buffer in which every block of `input` is replaced by what `f` makes
/// of it: byte `p` lies in word `p / BYTES`, that word in block
/// `p / BYTES / 2`, and the byte is byte `p % BYTES` of the first or second
/// word of the new block.
pub open spec fn map_blocks<W: Word>(input: Seq<u8>, f: spec_fn((W, W)) -> (W, W)) -> Seq<u8> {
    Seq::new(
        input.len(),
        |p: int|
            {
                let word = p / (word_bytes::<W>() as int);
                let block = f(block_at::<W>(input, word / 2));
                let bytes = word_le_bytes(
                    if word % 2 == 0 {
                        block.0
                    } else {
                        block.1
                    },
                );
                bytes[p % (word_bytes::<W>() as int)]
            },
    )
}

/// `input` encoded block by block under `key`, with `round_count` rounds.
pub open spec fn encoded<W: Word>(input: Seq<u8>, key: Seq<u8>, round_count: u8) -> Seq<u8> {
    map_blocks::<W>(
        input,
        |block: (W, W)| encode_block(block, subkeys::<W>(key, round_count), round_count as nat),
    )
}

/// `input` decoded block by block under `key`, with `round_count` rounds.
pub open spec fn decoded<W: Word>(input: Seq<u8>, key: Seq<u8>, round_count: u8) -> Seq<u8> {
    map_blocks::<W>(
        input,
        |block: (W, W)| decode_block(block, subkeys::<W>(key, round_count), round_count as nat),
    )
}

/// What encoding `input` gives: the encoded buffer where the input splits
/// into blocks, and the error where it does not.
pub open spec fn encode_result<W: Word>(input: Seq<u8>, key: Seq<u8>, round_count: u8) -> Result<
    Seq<u8>,
    Error,
> {
    if splits_into_blocks::<W>(input.len()) {
        Ok(encoded::<W>(input, key, round_count))
    } else {
        Err(Error::WrongInputSize)
    }
}

/// What decoding `input` gives: the decoded buffer where the input splits
/// into blocks, and the error where it does not.
pub open spec fn decode_result<W: Word>(input: Seq<u8>, key: Seq<u8>, round_count: u8) -> Result<
    Seq<u8>,
    Error,
> {
    if splits_into_blocks::<W>(input.len()) {
        Ok(decoded::<W>(input, key, round_count))
    } else {
        Err(Error::WrongInputSize)
    }
}

/// A result with the bytes of its buffer in place of the buffer.
pub open spec fn result_view(r: Result<Vec<u8>, Error>) -> Result<Seq<u8>, Error> {
    match r {
        Ok(output) => Ok(output@),
        Err(e) => Err(e),
    }
}

/// Where byte `p` of a buffer of whole blocks lies: in which word, and in
/// which block.
pub proof fn lemma_byte_position<W: Word>(len: nat, p: int)
    requires
        splits_into_blocks::<W>(len),
        0 <= p < len,
    ensures
        ({
            let width = word_bytes::<W>() as int;
            let word = p / width;
            let block = word / 2;
            &&& 0 < width
            &&& 0 <= word < len / (width as nat)
            &&& word * width <= p < (word + 1) * width
            &&& (word + 1) * width <= len
            &&& p % width == p - word * width
            &&& 0 <= block < block_count::<W>(len)
            &&& word == if word % 2 == 0 {
                2 * block
            } else {
                2 * block + 1
            }
        }),
{
    W::lemma_parameters();
    let width = word_bytes::<W>() as int;
    let word = p / width;
    let count = len as int / width;
    vstd::arithmetic::div_mod::lemma_fundamental_div_mod(p, width);
    vstd::arithmetic::div_mod::lemma_fundamental_div_mod(len as int, width);
    vstd::arithmetic::div_mod::lemma_mod_bound(p, width);
    assert(word * width == width * word) by (nonlinear_arith);
    assert((word + 1) * width == width * word + width) by (nonlinear_arith);
    assert(0 <= word) by (nonlinear_arith)
        requires
            width * word + p % width == p,
            0 <= p,
            p % width < width,
            0 < width,
    ;
    if word >= count {
        assert(width * word >= width * count) by (nonlinear_arith)
            requires
                word >= count,
                width > 0,
        ;
    }
    assert((word + 1) * width <= count * width) by (nonlinear_arith)
        requires
            word + 1 <= count,
            width > 0,
    ;
    assert(count * width == width * count) by (nonlinear_arith);
}

/// Where block `k` of a buffer of whole blocks lies in it.
pub proof fn lemma_block_range<W: Word>(len: nat, k: int)
    requires
        splits_into_blocks::<W>(len),
        0 <= k < block_count::<W>(len),
    ensures
        ({
            let width = word_bytes::<W>() as int;
            &&& 0 < width
            &&& 0 <= 2 * k * width
            &&& 2 * k * width + width == (2 * k + 1) * width
            &&& (2 * k + 1) * width + width == (2 * k + 2) * width
            &&& (2 * k + 2) * width <= len
        }),
{
    W::lemma_parameters();
    let width = word_bytes::<W>() as int;
    let count = len as int / width;
    vstd::arithmetic::div_mod::lemma_fundamental_div_mod(len as int, width);
    assert(2 * k + 2 <= count);
    assert(0 <= 2 * k * width) by (nonlinear_arith)
        requires
            0 <= k,
            0 < width,
    ;
    assert(2 * k * width + width == (2 * k + 1) * width) by (nonlinear_arith);
    assert((2 * k + 1) * width + width == (2 * k + 2) * width) by (nonlinear_arith);
    assert((2 * k + 2) * width <= count * width) by (nonlinear_arith)
        requires
            2 * k + 2 <= count,
            0 < width,
    ;
    assert(count * width == width * count) by (nonlinear_arith);
}

/// Byte `offset` of word `word` of a buffer lies in that word.
proof fn lemma_position_of_word_byte(width: int, word: int, offset: int)
    requires
        0 < width,
        0 <= word,
        0 <= offset < width,
    ensures
        (word * width + offset) / width == word,
        (word * width + offset) % width == offset,
{
    vstd::arithmetic::div_mod::lemma_fundamental_div_mod_converse(
        word * width + offset,
        width,
        word,
        offset,
    );
}

/// Block `k` of the mapped buffer is what `f` makes of block `k` of the
/// input.
pub proof fn lemma_block_of_map_blocks<W: Word>(
    input: Seq<u8>,
    f: spec_fn((W, W)) -> (W, W),
    k: int,
)
    requires
        splits_into_blocks::<W>(input.len()),
        0 <= k < block_count::<W>(input.len()),
    ensures
        block_at::<W>(map_blocks::<W>(input, f), k) == f(block_at::<W>(input, k)),
{
    let width = word_bytes::<W>() as int;
    let output = map_blocks::<W>(input, f);
    let block = f(block_at::<W>(input, k));
    lemma_block_range::<W>(input.len(), k);
    lemma_word_of_its_bytes(block.0);
    lemma_word_of_its_bytes(block.1);
    let low = output.subrange(2 * k * width, (2 * k + 1) * width);
    let high = output.subrange((2 * k + 1) * width, (2 * k + 2) * width);
    assert forall|offset: int| 0 <= offset < width implies low[offset] == word_le_bytes(
        block.0,
    )[offset] by {
        lemma_position_of_word_byte(width, 2 * k, offset);
    }
    assert forall|offset: int| 0 <= offset < width implies high[offset] == word_le_bytes(
        block.1,
    )[offset] by {
        lemma_position_of_word_byte(width, 2 * k + 1, offset);
    }
    assert(low =~= word_le_bytes(block.0));
    assert(high =~= word_le_bytes(block.1));
}

/// A buffer as long as the input, each block of which is what `f` makes of
/// the block at the same place of the input, is the mapped buffer.
pub proof fn lemma_map_blocks_unique<W: Word>(
    input: Seq<u8>,
    output: Seq<u8>,
    f: spec_fn((W, W)) -> (W, W),
)
    requires
        splits_into_blocks::<W>(input.len()),
        output.len() == input.len(),
        forall|k: int|
            0 <= k < block_count::<W>(input.len()) ==> block_at::<W>(output, k) == f(
                #[trigger] block_at::<W>(input, k),
            ),
    ensures
        output == map_blocks::<W>(input, f),
{
    let width = word_bytes::<W>() as int;
    let mapped = map_blocks::<W>(input, f);
    assert forall|p: int| 0 <= p < output.len() implies output[p] == mapped[p] by {
        lemma_byte_position::<W>(input.len(), p);
        let word = p / width;
        let k = word / 2;
        lemma_block_range::<W>(input.len(), k);
        let chunk = output.subrange(word * width, (word + 1) * width);
        lemma_bytes_of_their_word::<W>(chunk);
        assert(block_at::<W>(output, k) == f(block_at::<W>(input, k)));
        assert(word_at::<W>(output, word) == word_from_le_bytes::<W>(chunk));
        assert(chunk[p - word * width] == output[p]);
    }
    assert(output =~= mapped);
}

/// Mapping the blocks with `f` and then with `g` changes nothing where `g`
/// undoes `f` on every block.
pub proof fn lemma_map_blocks_inverse<W: Word>(
    input: Seq<u8>,
    f: spec_fn((W, W)) -> (W, W),
    g: spec_fn((W, W)) -> (W, W),
)
    requires
        splits_into_blocks::<W>(input.len()),
        forall|block: (W, W)| g(#[trigger] f(block)) == block,
    ensures
        map_blocks::<W>(map_blocks::<W>(input, f), g) == input,
{
    let mapped = map_blocks::<W>(input, f);
    assert forall|k: int| 0 <= k < block_count::<W>(mapped.len()) implies block_at::<W>(
        input,
        k,
    ) == g(#[trigger] block_at::<W>(mapped, k)) by {
        lemma_block_of_map_blocks::<W>(input, f, k);
    }
    lemma_map_blocks_unique::<W>(mapped, input, g);
}

/// Buffers that can be decoded block by block.
pub trait DecodeAsBlocks {
    /// The bytes of the buffer.
    spec fn spec_bytes(&self) -> Seq<u8>;

    /// Splits `self` into blocks (pairs of words) and executes the RC5
    /// decryption algorithm on each, under the subkeys of `key`.
    ///
    /// Fails where `self` cannot be divided into blocks.
    fn decode_as_blocks<W: Word, K: Key>(&self, key: K, round_count: u8) -> (r: Result<
        Vec<u8>,
        Error,
    >)
        requires
            key.well_formed(),
        ensures
            result_view(r) == decode_result::<W>(
                self.spec_bytes(),
                key.spec_secret(),
                round_count,
            ),
    ;
}

impl DecodeAsBlocks for [u8] {
    open spec fn spec_bytes(&self) -> Seq<u8> {
        self@
    }

    fn decode_as_blocks<W: Word, K: Key>(&self, key: K, round_count: u8) -> (r: Result<
        Vec<u8>,
        Error,
    >) {
        let key_table = key.mixin::<W>(round_count);
        let ghost table = key_table@;
        let processor = |block: (W, W)| -> (out: (W, W))
            ensures
                out == decode_block(block, key_table@, round_count as nat),
            {
                rc5_decode(block, key_table.as_slice(), round_count)
            };
        let r = process_blocks(self, processor);
        proof {
            if r is Ok {
                lemma_map_blocks_unique::<W>(
                    self@,
                    r->Ok_0@,
                    |block: (W, W)| decode_block(block, table, round_count as nat),
                );
            }
        }
        r
    }
}

/// Buffers that can be encoded block by block.
pub trait EncodeAsBlocks {
    /// The bytes of the buffer.
    spec fn spec_bytes(&self) -> Seq<u8>;

    /// Splits `self` into blocks (pairs of words) and executes the RC5
    /// encryption algorithm on each, under the subkeys of `key`.
    ///
    /// Fails where `self` cannot be divided into blocks.
    fn encode_as_blocks<W: Word, K: Key>(&self, key: K, round_count: u8) -> (r: Result<
        Vec<u8>,
        Error,
    >)
        requires
            key.well_formed(),
        ensures
            result_view(r) == encode_result::<W>(
                self.spec_bytes(),
                key.spec_secret(),
                round_count,
            ),
    ;
}

impl EncodeAsBlocks for [u8] {
    open spec fn spec_bytes(&self) -> Seq<u8> {
        self@
    }

    fn encode_as_blocks<W: Word, K: Key>(&self, key: K, round_count: u8) -> (r: Result<
        Vec<u8>,
        Error,
    >) {
        let key_table = key.mixin::<W>(round_count);
        let ghost table = key_table@;
        let processor = |block: (W, W)| -> (out: (W, W))
            ensures
                out == encode_block(block, key_table@, round_count as nat),
            {
                rc5_encode(block, key_table.as_slice(), round_count)
            };
        let r = process_blocks(self, processor);
        proof {
            if r is Ok {
                lemma_map_blocks_unique::<W>(
                    self@,
                    r->Ok_0@,
                    |block: (W, W)| encode_block(block, table, round_count as nat),
                );
            }
        }
        r
    }
}

impl DecodeAsBlocks for Vec<u8> {
    open spec fn spec_bytes(&self) -> Seq<u8> {
        self@
    }

    fn decode_as_blocks<W: Word, K: Key>(&self, key: K, round_count: u8) -> (r: Result<
        Vec<u8>,
        Error,
    >) {
        self.as_slice().decode_as_blocks::<W, K>(key, round_count)
    }
}

impl EncodeAsBlocks for Vec<u8> {
    open spec fn spec_bytes(&self) -> Seq<u8> {
        self@
    }

    fn encode_as_blocks<W: Word, K: Key>(&self, key: K, round_count: u8) -> (r: Result<
        Vec<u8>,
        Error,
    >) {
        self.as_slice().encode_as_blocks::<W, K>(key, round_count)
    }
}

impl<const N: usize> DecodeAsBlocks for [u8; N] {
    open spec fn spec_bytes(&self) -> Seq<u8> {
        self@
    }

    fn decode_as_blocks<W: Word, K: Key>(&self, key: K, round_count: u8) -> (r: Result<
        Vec<u8>,
        Error,
    >) {
        self.as_slice().decode_as_blocks::<W, K>(key, round_count)
    }
}

impl<const N: usize> EncodeAsBlocks for [u8; N] {
    open spec fn spec_bytes(&self) -> Seq<u8> {
        self@
    }

    fn encode_as_blocks<W: Word, K: Key>(&self, key: K, round_count: u8) -> (r: Result<
        Vec<u8>,
        Error,
    >) {
        self.as_slice().encode_as_blocks::<W, K>(key, round_count)
    }
}

} // verus!

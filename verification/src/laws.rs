//! What holds of the cipher as a whole: decoding undoes encoding, the same
//! input always gives the same output, and a buffer is refused exactly where it
//! is not made of whole blocks.
use crate::block::{
    decode_block,
    decode_result,
    decoded,
    encode_block,
    encode_result,
    encoded,
    lemma_decode_encode_block,
    lemma_encode_decode_block,
    lemma_map_blocks_inverse,
    splits_into_blocks,
    Error,
};
use crate::key::subkeys;
use crate::word::{word_bytes, Word};
use vstd::arithmetic::div_mod::{
    lemma_fundamental_div_mod,
    lemma_fundamental_div_mod_converse,
};
use vstd::prelude::*;

verus! {

/// Round trip: a buffer whose length is a multiple of the length of a block,
/// which is two words, is encoded without error, and decoding what encoding
/// gave, under the same key and with the same number of rounds, gives the
/// buffer back. This holds for every word, every key and every number of
/// rounds.
pub proof fn lemma_decode_undoes_encode<W: Word>(plain: Seq<u8>, key: Seq<u8>, round_count: u8)
    requires
        plain.len() % (2 * word_bytes::<W>()) == 0,
    ensures
        encode_result::<W>(plain, key, round_count) == Ok::<Seq<u8>, Error>(
            encoded::<W>(plain, key, round_count),
        ),
        decode_result::<W>(encoded::<W>(plain, key, round_count), key, round_count) == Ok::<
            Seq<u8>,
            Error,
        >(plain),
{
    lemma_whole_blocks::<W>(plain.len());
    let table = subkeys::<W>(key, round_count);
    let encode = |block: (W, W)| encode_block(block, table, round_count as nat);
    let decode = |block: (W, W)| decode_block(block, table, round_count as nat);
    assert forall|block: (W, W)| decode(#[trigger] encode(block)) == block by {
        lemma_decode_encode_block(block, table, round_count as nat);
    }
    lemma_map_blocks_inverse::<W>(plain, encode, decode);
}

/// The round trip the other way: encoding what decoding gave gives the
/// buffer back.
pub proof fn lemma_encode_undoes_decode<W: Word>(cipher: Seq<u8>, key: Seq<u8>, round_count: u8)
    requires
        cipher.len() % (2 * word_bytes::<W>()) == 0,
    ensures
        decode_result::<W>(cipher, key, round_count) == Ok::<Seq<u8>, Error>(
            decoded::<W>(cipher, key, round_count),
        ),
        encode_result::<W>(decoded::<W>(cipher, key, round_count), key, round_count) == Ok::<
            Seq<u8>,
            Error,
        >(cipher),
{
    lemma_whole_blocks::<W>(cipher.len());
    let table = subkeys::<W>(key, round_count);
    let encode = |block: (W, W)| encode_block(block, table, round_count as nat);
    let decode = |block: (W, W)| decode_block(block, table, round_count as nat);
    assert forall|block: (W, W)| encode(#[trigger] decode(block)) == block by {
        lemma_encode_decode_block(block, table, round_count as nat);
    }
    lemma_map_blocks_inverse::<W>(cipher, decode, encode);
}

/// A buffer is made of whole blocks exactly where its length is a multiple of
/// the length of a block, which is two words.
pub proof fn lemma_whole_blocks<W: Word>(len: nat)
    ensures
        splits_into_blocks::<W>(len) <==> len % (2 * word_bytes::<W>()) == 0,
{
    W::lemma_parameters();
    let width = word_bytes::<W>() as int;
    let n = len as int;
    lemma_fundamental_div_mod(n, width);
    lemma_fundamental_div_mod(n, 2 * width);
    if splits_into_blocks::<W>(len) {
        let words = n / width;
        lemma_fundamental_div_mod(words, 2);
        assert(n == (words / 2) * (2 * width) + 0) by (nonlinear_arith)
            requires
                n == width * words,
                words == 2 * (words / 2),
        ;
        lemma_fundamental_div_mod_converse(n, 2 * width, words / 2, 0);
    }
    if n % (2 * width) == 0 {
        let blocks = n / (2 * width);
        assert(n == (2 * blocks) * width + 0) by (nonlinear_arith)
            requires
                n == (2 * width) * blocks,
        ;
        lemma_fundamental_div_mod_converse(n, width, 2 * blocks, 0);
    }
}

/// Encoding and decoding keep the length of the buffer.
pub proof fn lemma_length_is_kept<W: Word>(input: Seq<u8>, key: Seq<u8>, round_count: u8)
    ensures
        encoded::<W>(input, key, round_count).len() == input.len(),
        decoded::<W>(input, key, round_count).len() == input.len(),
{
}

/// Validation: a buffer is refused, with `WrongInputSize`, if and only if its
/// length is not a multiple of the width of a word in bytes, or it is and the
/// number of words is odd. The key and the number of rounds play no part in
/// it.
pub proof fn lemma_refused_iff_not_whole_blocks<W: Word>(
    input: Seq<u8>,
    key: Seq<u8>,
    round_count: u8,
)
    ensures
        encode_result::<W>(input, key, round_count) is Err <==> (input.len() % (
        word_bytes::<W>()) != 0 || (input.len() / word_bytes::<W>()) % 2 == 1),
        decode_result::<W>(input, key, round_count) is Err <==> (input.len() % (
        word_bytes::<W>()) != 0 || (input.len() / word_bytes::<W>()) % 2 == 1),
        encode_result::<W>(input, key, round_count) is Err ==> encode_result::<W>(
            input,
            key,
            round_count,
        ) == Err::<Seq<u8>, Error>(Error::WrongInputSize),
        decode_result::<W>(input, key, round_count) is Err ==> decode_result::<W>(
            input,
            key,
            round_count,
        ) == Err::<Seq<u8>, Error>(Error::WrongInputSize),
{
}

/// Determinism of the key schedule: two tables of subkeys made from the same
/// key for the same number of rounds are the same table.
pub proof fn lemma_same_key_same_subkeys<W: Word>(
    key: Seq<u8>,
    round_count: u8,
    first: Vec<W>,
    second: Vec<W>,
)
    requires
        first@ == subkeys::<W>(key, round_count),
        second@ == subkeys::<W>(key, round_count),
    ensures
        first@ == second@,
{
}

/// Determinism of encoding: two calls with the same buffer, the same key and
/// the same number of rounds end the same way, with the same bytes or with the
/// same error.
pub proof fn lemma_same_input_same_encoding<W: Word>(
    input: Seq<u8>,
    key: Seq<u8>,
    round_count: u8,
    first: Result<Vec<u8>, crate::Error>,
    second: Result<Vec<u8>, crate::Error>,
)
    requires
        crate::output_view(first) == crate::public_result(
            encode_result::<W>(input, key, round_count),
        ),
        crate::output_view(second) == crate::public_result(
            encode_result::<W>(input, key, round_count),
        ),
    ensures
        crate::output_view(first) == crate::output_view(second),
{
}

/// Determinism of decoding: two calls with the same buffer, the same key and
/// the same number of rounds end the same way, with the same bytes or with the
/// same error.
pub proof fn lemma_same_input_same_decoding<W: Word>(
    input: Seq<u8>,
    key: Seq<u8>,
    round_count: u8,
    first: Result<Vec<u8>, crate::Error>,
    second: Result<Vec<u8>, crate::Error>,
)
    requires
        crate::output_view(first) == crate::public_result(
            decode_result::<W>(input, key, round_count),
        ),
        crate::output_view(second) == crate::public_result(
            decode_result::<W>(input, key, round_count),
        ),
    ensures
        crate::output_view(first) == crate::output_view(second),
{
}

} // verus!

//! The RC5 block cipher, for words of 8, 16, 32, 64 and 128 bits.
//!
//! A buffer of bytes is cut into blocks of two words, and every block is
//! encoded or decoded by itself under a table of subkeys, which is derived
//! from the secret key anew on every call.
//!
//! - [`arith`]: the arithmetic on natural numbers that the contracts rest on;
//! - [`word`]: words, their operations, and the pseudo-random key sequence;
//! - [`key`]: keys, and the key schedule that makes the table of subkeys;
//! - [`block`]: the round function on one block, and the codec on buffers;
//! - [`settings`]: the choice of the word and of the number of rounds;
//! - [`laws`]: what holds of encoding and decoding together.
//!
//! [`EncodeRc5`] and [`DecodeRc5`] are the way in: they encode and decode
//! slices, vectors and arrays of bytes.
use vstd::prelude::*;

pub mod arith;
pub mod block;
pub mod key;
pub mod laws;
pub mod settings;
pub mod word;
mod word_u128;
mod word_u16;
mod word_u32;
mod word_u64;
mod word_u8;

use block::{decode_result, encode_result, DecodeAsBlocks, EncodeAsBlocks};
pub use key::Key;
pub use settings::{DefaultWord, Rc5Settings, DEFAULT_ROUNDS_COUNT};
use vstd::std_specs::convert::FromSpecImpl;
pub use word::Word;

verus! {

/// Why a buffer could not be encoded or decoded.
#[derive(Debug, Clone, Copy, PartialEq, Eq, Structural)]
pub enum Error {
    /// The input data must be a multiple of the word bytes len, and hold an
    /// even number of words.
    WrongInputSize,
}

impl Error {
    /// The name of the error.
    pub fn to_string(&self) -> (name: String)
        ensures
            name@ == "WrongInputSize"@,
    {
        match self {
            Error::WrongInputSize => "WrongInputSize".to_owned(),
        }
    }
}

/// The error of the codec under its public name.
pub open spec fn public_error(e: block::Error) -> Error {
    match e {
        block::Error::WrongInputSize => Error::WrongInputSize,
    }
}

impl From<block::Error> for Error {
    fn from(value: block::Error) -> (error: Self) {
        match value {
            block::Error::WrongInputSize => Error::WrongInputSize,
        }
    }
}

impl FromSpecImpl<block::Error> for Error {
    open spec fn obeys_from_spec() -> bool {
        true
    }

    open spec fn from_spec(value: block::Error) -> Self {
        public_error(value)
    }
}

/// A result of the codec as a result of the cipher: the same bytes, or the
/// error under its public name.
pub open spec fn public_result(r: Result<Seq<u8>, block::Error>) -> Result<Seq<u8>, Error> {
    match r {
        Ok(output) => Ok(output),
        Err(e) => Err(public_error(e)),
    }
}

/// A result with the bytes of its buffer in place of the buffer.
pub open spec fn output_view(r: Result<Vec<u8>, Error>) -> Result<Seq<u8>, Error> {
    match r {
        Ok(output) => Ok(output@),
        Err(e) => Err(e),
    }
}

/// Buffers that RC5 can encode.
pub trait EncodeRc5 {
    /// The bytes of the buffer.
    spec fn plain_bytes(&self) -> Seq<u8>;

    /// Encode by RC5 with custom settings.
    ///
    /// Splits `self` into blocks (pairs of words) and executes the RC5
    /// encryption algorithm on each. Fails with [`Error::WrongInputSize`]
    /// exactly where `self` cannot be divided into blocks.
    fn encode_rc5_with_settings<W: Word, K: Key>(&self, key: K, settings: Rc5Settings<W>) -> (r:
        Result<Vec<u8>, Error>)
        requires
            key.well_formed(),
        ensures
            output_view(r) == public_result(
                encode_result::<W>(self.plain_bytes(), key.spec_secret(), settings.rounds_count),
            ),
    ;

    /// Encode by RC5 with default settings (32/12/b).
    fn encode_rc5<K: Key>(&self, key: K) -> (r: Result<Vec<u8>, Error>)
        requires
            key.well_formed(),
        ensures
            output_view(r) == public_result(
                encode_result::<DefaultWord>(
                    self.plain_bytes(),
                    key.spec_secret(),
                    DEFAULT_ROUNDS_COUNT,
                ),
            ),
    {
        self.encode_rc5_with_settings(key, Rc5Settings::default())
    }
}

/// Buffers that RC5 can decode.
pub trait DecodeRc5 {
    /// The bytes of the buffer.
    spec fn cipher_bytes(&self) -> Seq<u8>;

    /// Decode by RC5 with custom settings.
    ///
    /// Splits `self` into blocks (pairs of words) and executes the RC5
    /// decryption algorithm on each. Fails with [`Error::WrongInputSize`]
    /// exactly where `self` cannot be divided into blocks.
    fn decode_rc5_with_settings<W: Word, K: Key>(&self, key: K, settings: Rc5Settings<W>) -> (r:
        Result<Vec<u8>, Error>)
        requires
            key.well_formed(),
        ensures
            output_view(r) == public_result(
                decode_result::<W>(self.cipher_bytes(), key.spec_secret(), settings.rounds_count),
            ),
    ;

    /// Decode by RC5 with default settings (32/12/b).
    fn decode_rc5<K: Key>(&self, key: K) -> (r: Result<Vec<u8>, Error>)
        requires
            key.well_formed(),
        ensures
            output_view(r) == public_result(
                decode_result::<DefaultWord>(
                    self.cipher_bytes(),
                    key.spec_secret(),
                    DEFAULT_ROUNDS_COUNT,
                ),
            ),
    {
        self.decode_rc5_with_settings(key, Rc5Settings::default())
    }
}

impl<T: EncodeAsBlocks + ?Sized> EncodeRc5 for T {
    open spec fn plain_bytes(&self) -> Seq<u8> {
        self.spec_bytes()
    }

    fn encode_rc5_with_settings<W: Word, K: Key>(&self, key: K, settings: Rc5Settings<W>) -> (r:
        Result<Vec<u8>, Error>) {
        match self.encode_as_blocks::<W, K>(key, settings.rounds_count) {
            Ok(output) => Ok(output),
            Err(e) => Err(Error::from(e)),
        }
    }
}

impl<T: DecodeAsBlocks + ?Sized> DecodeRc5 for T {
    open spec fn cipher_bytes(&self) -> Seq<u8> {
        self.spec_bytes()
    }

    fn decode_rc5_with_settings<W: Word, K: Key>(&self, key: K, settings: Rc5Settings<W>) -> (r:
        Result<Vec<u8>, Error>) {
        match self.decode_as_blocks::<W, K>(key, settings.rounds_count) {
            Ok(output) => Ok(output),
            Err(e) => Err(Error::from(e)),
        }
    }
}

} // verus!

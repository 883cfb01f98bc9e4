//! Settings of the cipher: the word, chosen by type, and the number of rounds.
use crate::word::Word;
use std::marker::PhantomData;
use vstd::prelude::*;

verus! {

/// The word of the nominal choice of parameters, RC5-32/12/b.
pub type DefaultWord = u32;

/// Number of rounds of the nominal choice of parameters.
pub const DEFAULT_ROUNDS_COUNT: u8 = 12;

/// The word `W` to compute with, and the number of rounds to run.
pub struct Rc5Settings<W: Word> {
    /// Number of rounds.
    pub rounds_count: u8,
    /// Stands for the word, which the settings name by type only.
    pub _p: PhantomData<W>,
}

impl<W: Word> Rc5Settings<W> {
    /// Settings with `rounds_count` rounds. Every number of rounds is valid;
    /// with none, a block only has the first two subkeys added to it.
    pub fn new(rounds_count: u8) -> (settings: Self)
        ensures
            settings.rounds_count == rounds_count,
    {
        Self { rounds_count, _p: PhantomData }
    }
}

impl Default for Rc5Settings<DefaultWord> {
    /// Words of 32 bits and 12 rounds.
    fn default() -> (settings: Self)
        ensures
            settings.rounds_count == DEFAULT_ROUNDS_COUNT,
    {
        Self { rounds_count: DEFAULT_ROUNDS_COUNT, _p: PhantomData }
    }
}

} // verus!

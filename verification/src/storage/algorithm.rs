//! How a file is to be written: what it is encoded with, and how it is cut.
use vstd::prelude::*;

use super::chunk::Chunking;
use super::codec::Codec;

verus! {

/// How a file is to be written: what it is encoded with, and how it is cut.
///
/// The choice is a plain value: making it is the store's business, and everything after it is
/// deterministic, so the same content written with the same choice always lands as the same
/// bytes. None of it is part of the key, which is the hash of the content and nothing else.
#[derive(Debug, Clone, Copy, PartialEq, Eq, Structural)]
pub struct AlgorithmChoice {
    /// The encoding the payload is written in.
    codec: Codec,
    /// How the content is cut into chunks before it is written.
    chunking: Chunking,
}

impl View for AlgorithmChoice {
    type V = (Codec, Chunking);

    closed spec fn view(&self) -> (Codec, Chunking) {
        (self.codec, self.chunking)
    }
}

impl AlgorithmChoice {
    /// A choice of `codec` and `chunking`.
    pub fn new(codec: Codec, chunking: Chunking) -> (choice: AlgorithmChoice)
        ensures
            choice@ == (codec, chunking),
    {
        AlgorithmChoice { codec, chunking }
    }

    /// The encoding the payload is written in.
    pub fn codec(&self) -> (codec: Codec)
        ensures
            codec == self@.0,
    {
        self.codec
    }

    /// How the content is cut into chunks before it is written.
    pub fn chunking(&self) -> (chunking: Chunking)
        ensures
            chunking == self@.1,
    {
        self.chunking
    }
}

impl Default for AlgorithmChoice {
    /// Written as it came, whole.
    fn default() -> (choice: AlgorithmChoice)
        ensures
            choice@ == (Codec::Raw, Chunking::Whole),
    {
        AlgorithmChoice::new(Codec::Raw, Chunking::Whole)
    }
}

} // verus!

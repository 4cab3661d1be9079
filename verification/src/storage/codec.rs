//! The encodings a payload may be written in.
use vstd::prelude::*;

use super::error::Error;

verus! {

/// The level `lz4` is asked for: the fastest there is.
pub const LZ4_LEVEL: i32 = 1;

/// The level `zstd` is asked for: its own balance of speed and size.
pub const ZSTD_LEVEL: i32 = 3;

/// The longest input `lz4` takes into one block (its `LZ4_MAX_INPUT_SIZE`).
pub const LZ4_MAX_INPUT: usize = 0x7E00_0000;

/// The encodings a payload may be written in.
///
/// The number a codec is written down by travels in a frame header, so a reader can undo what
/// a writer did without being told anything else. A codec is lossless: what `decode` gives back
/// is what `encode` was handed, byte for byte.
#[derive(Debug, Clone, Copy, PartialEq, Eq, Structural)]
pub enum Codec {
    /// The payload is stored as it is.
    Raw,
    /// The payload is stored as an `lz4` block.
    Lz4,
    /// The payload is stored as a `zstd` frame.
    Zstd,
}

/// The number `codec` is written down by.
pub open spec fn codec_id(codec: Codec) -> u8 {
    match codec {
        Codec::Raw => 0,
        Codec::Lz4 => 1,
        Codec::Zstd => 2,
    }
}

/// The codec `number` writes down, if there is one.
pub open spec fn codec_of_id(number: u8) -> Option<Codec> {
    if number == 0 {
        Some(Codec::Raw)
    } else if number == 1 {
        Some(Codec::Lz4)
    } else if number == 2 {
        Some(Codec::Zstd)
    } else {
        None
    }
}

/// A codec read back from its number is the codec that was written.
pub proof fn lemma_codec_id_round_trip(codec: Codec)
    ensures
        codec_of_id(codec_id(codec)) == Some(codec),
{
}

/// The `lz4` block `plain` compresses to, at [`LZ4_LEVEL`] and without a length in front.
pub uninterp spec fn lz4_block(plain: Seq<u8>) -> Seq<u8>;

/// What the `lz4` block `encoded` decompresses to, told it is `size` bytes long; `None` where it
/// does not decompress.
pub uninterp spec fn lz4_unblock(encoded: Seq<u8>, size: i32) -> Option<Seq<u8>>;

/// The `zstd` frame `plain` compresses to, at [`ZSTD_LEVEL`].
pub uninterp spec fn zstd_frame(plain: Seq<u8>) -> Seq<u8>;

/// What the `zstd` frame `encoded` decompresses to, holding at most `capacity` bytes; `None`
/// where it does not decompress.
pub uninterp spec fn zstd_unframe(encoded: Seq<u8>, capacity: usize) -> Option<Seq<u8>>;

/// Compresses `plain` into one `lz4` block with `lz4::block::compress`.
///
/// The contract claims that a block that comes back is a function of `plain` alone — the mode
/// and the missing length prefix are fixed here — and that compression succeeds exactly on an
/// input of at most [`LZ4_MAX_INPUT`] bytes: the crate refuses a longer one before compressing,
/// and compresses a shorter one into a buffer of `LZ4_compressBound` bytes, which the C library
/// documents as always large enough. A failure is handed back as an I/O failure carrying what
/// `lz4` said.
#[verifier::external_body]
fn lz4_compress(plain: &[u8]) -> (encoded: Result<Vec<u8>, std::io::Error>)
    ensures
        encoded matches Ok(bytes) ==> bytes@ == lz4_block(plain@),
        encoded is Ok <==> plain@.len() <= LZ4_MAX_INPUT,
{
    lz4::block::compress(plain, Some(lz4::block::CompressionMode::FAST(LZ4_LEVEL)), false)
        .map_err(|said| std::io::Error::other(said.to_string()))
}

/// Decompresses the `lz4` block `encoded` with `lz4::block::decompress`, told how long it is.
///
/// The contract claims that the answer is a function of the arguments, and the one fact `lz4`
/// exists for: a block that `plain` compressed to, told the length `plain` was, decompresses to
/// `plain`. It says so only of a `plain` of at most [`LZ4_MAX_INPUT`] bytes: the crate refuses
/// to decompress to anything longer, whatever the block.
#[verifier::external_body]
fn lz4_decompress(encoded: &[u8], size: i32) -> (plain: Option<Vec<u8>>)
    ensures
        plain matches Some(bytes) ==> lz4_unblock(encoded@, size) == Some(bytes@),
        plain is None ==> lz4_unblock(encoded@, size) is None,
        plain matches Some(bytes) ==> forall|original: Seq<u8>|
            #[trigger] lz4_block(original) == encoded@ && original.len() == size && original.len()
                <= LZ4_MAX_INPUT ==> bytes@ == original,
        plain is None ==> forall|original: Seq<u8>|
            #[trigger] lz4_block(original) == encoded@ && original.len() <= LZ4_MAX_INPUT ==> original.len()
                != size,
{
    lz4::block::decompress(encoded, Some(size)).ok()
}

/// Compresses `plain` into one `zstd` frame with `zstd::bulk::compress`.
///
/// The contract claims that a frame that comes back is a function of `plain` alone, the level
/// being fixed here, and that compression succeeds: the crate compresses into a buffer of
/// `ZSTD_compressBound` bytes, which the C library documents as enough for any input. Running out
/// of memory is not a failure this reports. The error arm maps what `zstd` said to an I/O failure.
#[verifier::external_body]
fn zstd_compress(plain: &[u8]) -> (encoded: Result<Vec<u8>, std::io::Error>)
    ensures
        encoded matches Ok(bytes) ==> bytes@ == zstd_frame(plain@),
        encoded is Ok,
{
    zstd::bulk::compress(plain, ZSTD_LEVEL).map_err(|said| std::io::Error::other(said.to_string()))
}

/// Decompresses the `zstd` frame `encoded` with `zstd::bulk::decompress`, allowing it at most
/// `capacity` bytes.
///
/// The contract claims that the answer is a function of the arguments, and that a frame `plain`
/// compressed to, allowed the length `plain` was, decompresses to `plain`.
#[verifier::external_body]
fn zstd_decompress(encoded: &[u8], capacity: usize) -> (plain: Option<Vec<u8>>)
    ensures
        plain matches Some(bytes) ==> zstd_unframe(encoded@, capacity) == Some(bytes@),
        plain is None ==> zstd_unframe(encoded@, capacity) is None,
        plain matches Some(bytes) ==> forall|original: Seq<u8>|
            #[trigger] zstd_frame(original) == encoded@ && original.len() == capacity ==> bytes@ == original,
        plain is None ==> forall|original: Seq<u8>|
            #[trigger] zstd_frame(original) == encoded@ ==> original.len() != capacity,
{
    zstd::bulk::decompress(encoded, capacity).ok()
}

/// What `codec` makes of `plain`, where it makes anything of it.
pub open spec fn encoded_by(codec: Codec, plain: Seq<u8>) -> Seq<u8> {
    match codec {
        Codec::Raw => plain,
        Codec::Lz4 => lz4_block(plain),
        Codec::Zstd => zstd_frame(plain),
    }
}

/// Whether `codec` can encode `plain` at all: an `lz4` block holds at most [`LZ4_MAX_INPUT`]
/// bytes, and the other codecs take anything.
pub open spec fn encodable(codec: Codec, plain: Seq<u8>) -> bool {
    codec == Codec::Lz4 ==> plain.len() <= LZ4_MAX_INPUT
}

/// What `codec` reads `encoded` back as, given that it was `plain_len` bytes long: `None` where
/// it does not read as that many bytes.
pub open spec fn decoded_by(codec: Codec, encoded: Seq<u8>, plain_len: usize) -> Option<Seq<u8>> {
    let content = match codec {
        Codec::Raw => Some(encoded),
        Codec::Lz4 => if plain_len <= i32::MAX {
            lz4_unblock(encoded, plain_len as i32)
        } else {
            None
        },
        Codec::Zstd => zstd_unframe(encoded, plain_len),
    };
    match content {
        Some(bytes) => if bytes.len() == plain_len {
            Some(bytes)
        } else {
            None
        },
        None => None,
    }
}

impl Codec {
    /// The number this codec is written down by in a frame header.
    pub fn id(self) -> (number: u8)
        ensures
            number == codec_id(self),
    {
        match self {
            Codec::Raw => 0,
            Codec::Lz4 => 1,
            Codec::Zstd => 2,
        }
    }

    /// The codec written down by `number`, if this build knows one.
    pub fn from_id(number: u8) -> (codec: Option<Codec>)
        ensures
            codec == codec_of_id(number),
    {
        if number == 0 {
            Some(Codec::Raw)
        } else if number == 1 {
            Some(Codec::Lz4)
        } else if number == 2 {
            Some(Codec::Zstd)
        } else {
            None
        }
    }

    /// Encodes `plain` for storage.
    ///
    /// Succeeds exactly on what the codec can encode: anything for `Raw` and `Zstd`, at most
    /// [`LZ4_MAX_INPUT`] bytes for `Lz4`. Returns `Error::Io` with what `lz4` said otherwise.
    pub fn encode(self, plain: &[u8]) -> (encoded: Result<Vec<u8>, Error>)
        ensures
            encoded is Ok <==> encodable(self, plain@),
            encoded matches Ok(bytes) ==> bytes@ == encoded_by(self, plain@),
            encoded matches Err(error) ==> error is Io && self == Codec::Lz4,
    {
        match self {
            Codec::Raw => Ok(crate::bytes::copied(plain)),
            Codec::Lz4 => match lz4_compress(plain) {
                Ok(bytes) => Ok(bytes),
                Err(said) => Err(Error::Io(said)),
            },
            Codec::Zstd => match zstd_compress(plain) {
                Ok(bytes) => Ok(bytes),
                Err(said) => Err(Error::Io(said)),
            },
        }
    }

    /// Decodes `encoded` back to the `plain_len` bytes it was encoded from.
    ///
    /// Returns `Error::Malformed` when `encoded` does not decode to `plain_len` bytes — the frame
    /// said how long the content was, so anything else is a store that does not hold together.
    /// Whatever this codec encoded from `plain_len` bytes decodes back to those bytes.
    pub fn decode(self, encoded: &[u8], plain_len: usize) -> (plain: Result<Vec<u8>, Error>)
        ensures
            plain matches Ok(bytes) ==> decoded_by(self, encoded@, plain_len) == Some(bytes@),
            plain matches Err(error) ==> error is Malformed && decoded_by(
                self,
                encoded@,
                plain_len,
            ) is None,
            forall|original: Seq<u8>|
                encoded_by(self, original) == encoded@ && original.len() == plain_len && encodable(
                    self,
                    original,
                ) ==> (plain
                    matches Ok(bytes) && bytes@ == original),
    {
        let content = match self {
            Codec::Raw => {
                if encoded.len() == plain_len {
                    return Ok(crate::bytes::copied(encoded));
                } else {
                    return Err(Error::Malformed);
                }
            },
            Codec::Lz4 => {
                if plain_len > 2147483647usize {
                    return Err(Error::Malformed);
                }
                match lz4_decompress(encoded, plain_len as i32) {
                    Some(bytes) => bytes,
                    None => {
                        return Err(Error::Malformed);
                    },
                }
            },
            Codec::Zstd => match zstd_decompress(encoded, plain_len) {
                Some(bytes) => bytes,
                None => {
                    return Err(Error::Malformed);
                },
            },
        };
        if content.len() == plain_len {
            Ok(content)
        } else {
            Err(Error::Malformed)
        }
    }
}

} // verus!

//! How a value is written to cross between the two sides, and read back on the far one.
//!
//! What crosses is a value's `bincode2` encoding, in its default shape: numbers little-endian
//! and at their full width, a run of bytes as its length (as a `u64`) and then the bytes.
use vstd::prelude::*;


verus! {

/// The four bytes `value` is written as, least significant first.
pub open spec fn le32_bytes(value: u32) -> Seq<u8> {
    seq![value as u8, (value >> 8u32) as u8, (value >> 16u32) as u8, (value >> 24u32) as u8]
}

/// The number the first four of `bytes` stand for, least significant first.
pub open spec fn le32_value(bytes: Seq<u8>) -> u32 {
    (bytes[0] as u32) | ((bytes[1] as u32) << 8u32) | ((bytes[2] as u32) << 16u32) | ((bytes[3] as u32) << 24u32)
}

/// The eight bytes `value` is written as, least significant first.
pub open spec fn le64_bytes(value: u64) -> Seq<u8> {
    seq![
        value as u8,
        (value >> 8u64) as u8,
        (value >> 16u64) as u8,
        (value >> 24u64) as u8,
        (value >> 32u64) as u8,
        (value >> 40u64) as u8,
        (value >> 48u64) as u8,
        (value >> 56u64) as u8,
    ]
}

/// The number the first eight of `bytes` stand for, least significant first.
pub open spec fn le64_value(bytes: Seq<u8>) -> u64 {
    (bytes[0] as u64) | ((bytes[1] as u64) << 8u64) | ((bytes[2] as u64) << 16u64) | ((bytes[3] as u64)
        << 24u64) | ((bytes[4] as u64) << 32u64) | ((bytes[5] as u64) << 40u64) | ((bytes[6] as u64)
        << 48u64) | ((bytes[7] as u64) << 56u64)
}

/// A `u32` written out reads back as itself.
pub proof fn lemma_le32_round_trip(value: u32)
    ensures
        le32_value(le32_bytes(value)) == value,
{
    let b0 = value as u8;
    let b1 = (value >> 8u32) as u8;
    let b2 = (value >> 16u32) as u8;
    let b3 = (value >> 24u32) as u8;
    assert((b0 as u32) | ((b1 as u32) << 8u32) | ((b2 as u32) << 16u32) | ((b3 as u32) << 24u32) == value)
        by (bit_vector)
        requires
            b0 == value as u8,
            b1 == (value >> 8u32) as u8,
            b2 == (value >> 16u32) as u8,
            b3 == (value >> 24u32) as u8,
    ;
}

/// A `u64` written out reads back as itself.
pub proof fn lemma_le64_round_trip(value: u64)
    ensures
        le64_value(le64_bytes(value)) == value,
{
    let b0 = value as u8;
    let b1 = (value >> 8u64) as u8;
    let b2 = (value >> 16u64) as u8;
    let b3 = (value >> 24u64) as u8;
    let b4 = (value >> 32u64) as u8;
    let b5 = (value >> 40u64) as u8;
    let b6 = (value >> 48u64) as u8;
    let b7 = (value >> 56u64) as u8;
    assert((b0 as u64) | ((b1 as u64) << 8u64) | ((b2 as u64) << 16u64) | ((b3 as u64) << 24u64) | ((
    b4 as u64) << 32u64) | ((b5 as u64) << 40u64) | ((b6 as u64) << 48u64) | ((b7 as u64) << 56u64)
        == value) by (bit_vector)
        requires
            b0 == value as u8,
            b1 == (value >> 8u64) as u8,
            b2 == (value >> 16u64) as u8,
            b3 == (value >> 24u64) as u8,
            b4 == (value >> 32u64) as u8,
            b5 == (value >> 40u64) as u8,
            b6 == (value >> 48u64) as u8,
            b7 == (value >> 56u64) as u8,
    ;
}

/// `bincode2::serialize` of a `u32`.
///
/// The default configuration writes integers little-endian at full width with no size limit,
/// into a vector that cannot fail to take them, so the source shows the four bytes always come
/// back.
#[verifier::external_body]
fn encode_u32(value: u32) -> (encoded: Result<Vec<u8>, bincode2::Error>)
    ensures
        encoded is Ok,
        encoded matches Ok(bytes) ==> bytes@ == le32_bytes(value),
{
    bincode2::serialize(&value)
}

/// `bincode2::deserialize` of a `u32`.
///
/// The source reads four bytes little-endian from the front of the slice, fails where fewer
/// are there, and leaves whatever follows them unread.
#[verifier::external_body]
fn decode_u32(raw: &[u8]) -> (decoded: Result<u32, bincode2::Error>)
    ensures
        decoded is Ok <==> raw@.len() >= 4,
        decoded matches Ok(value) ==> value == le32_value(raw@),
{
    bincode2::deserialize(raw)
}

/// `bincode2::serialize` of a `u64`: eight bytes, little-endian, always.
#[verifier::external_body]
fn encode_u64(value: u64) -> (encoded: Result<Vec<u8>, bincode2::Error>)
    ensures
        encoded is Ok,
        encoded matches Ok(bytes) ==> bytes@ == le64_bytes(value),
{
    bincode2::serialize(&value)
}

/// `bincode2::deserialize` of a `u64`: eight bytes little-endian from the front of the slice,
/// failing where fewer are there.
#[verifier::external_body]
fn decode_u64(raw: &[u8]) -> (decoded: Result<u64, bincode2::Error>)
    ensures
        decoded is Ok <==> raw@.len() >= 8,
        decoded matches Ok(value) ==> value == le64_value(raw@),
{
    bincode2::deserialize(raw)
}

/// A value that can cross between the two sides.
pub trait Encodable: Sized {
    /// The bytes the value is written as.
    spec fn encoding(&self) -> Seq<u8>;

    /// Whether `raw` reads back as a value at all.
    spec fn decodes(raw: Seq<u8>) -> bool;

    /// Whether `raw` reads back as `value`.
    spec fn decodes_to(raw: Seq<u8>, value: Self) -> bool;

    /// Writes the value out.
    fn encode(&self) -> (encoded: Result<Vec<u8>, bincode2::Error>)
        ensures
            encoded matches Ok(bytes) ==> bytes@ == self.encoding(),
    ;

    /// Reads a value back.
    fn decode(raw: Vec<u8>) -> (decoded: Result<Self, bincode2::Error>)
        ensures
            decoded matches Ok(value) ==> Self::decodes_to(raw@, value),
            decoded is Ok <==> Self::decodes(raw@),
    ;
}

impl Encodable for u32 {
    open spec fn encoding(&self) -> Seq<u8> {
        le32_bytes(*self)
    }

    open spec fn decodes(raw: Seq<u8>) -> bool {
        raw.len() >= 4
    }

    open spec fn decodes_to(raw: Seq<u8>, value: u32) -> bool {
        raw.len() >= 4 && value == le32_value(raw)
    }

    fn encode(&self) -> (encoded: Result<Vec<u8>, bincode2::Error>)
        ensures
            encoded is Ok,
    {
        encode_u32(*self)
    }

    fn decode(raw: Vec<u8>) -> (decoded: Result<u32, bincode2::Error>) {
        decode_u32(raw.as_slice())
    }
}

impl Encodable for u64 {
    open spec fn encoding(&self) -> Seq<u8> {
        le64_bytes(*self)
    }

    open spec fn decodes(raw: Seq<u8>) -> bool {
        raw.len() >= 8
    }

    open spec fn decodes_to(raw: Seq<u8>, value: u64) -> bool {
        raw.len() >= 8 && value == le64_value(raw)
    }

    fn encode(&self) -> (encoded: Result<Vec<u8>, bincode2::Error>)
        ensures
            encoded is Ok,
    {
        encode_u64(*self)
    }

    fn decode(raw: Vec<u8>) -> (decoded: Result<u64, bincode2::Error>) {
        decode_u64(raw.as_slice())
    }
}

/// `bincode2::serialize` of a run of bytes.
///
/// The source writes a sequence as its length, a `u64` little-endian, and then each byte, into a
/// vector that cannot fail to take them, so this always comes back.
#[verifier::external_body]
fn encode_bytes(value: &Vec<u8>) -> (encoded: Result<Vec<u8>, bincode2::Error>)
    ensures
        encoded is Ok,
        encoded matches Ok(bytes) ==> bytes@ == le64_bytes(value@.len() as u64) + value@,
{
    bincode2::serialize(value)
}

/// `bincode2::deserialize` of a run of bytes.
///
/// The source reads the length, a `u64` little-endian, and then that many bytes one at a time,
/// failing where the slice ends first; whatever follows is left unread.
#[verifier::external_body]
fn decode_bytes(raw: &[u8]) -> (decoded: Result<Vec<u8>, bincode2::Error>)
    ensures
        decoded is Ok <==> (raw@.len() >= 8 && raw@.len() - 8 >= le64_value(raw@)),
        decoded matches Ok(bytes) ==> bytes@ == raw@.subrange(8, 8 + le64_value(raw@)),
{
    bincode2::deserialize(raw)
}

impl Encodable for Vec<u8> {
    open spec fn encoding(&self) -> Seq<u8> {
        le64_bytes(self@.len() as u64) + self@
    }

    open spec fn decodes(raw: Seq<u8>) -> bool {
        raw.len() >= 8 && raw.len() - 8 >= le64_value(raw)
    }

    open spec fn decodes_to(raw: Seq<u8>, value: Vec<u8>) -> bool {
        raw.len() >= 8 && raw.len() - 8 >= le64_value(raw) && value@ == raw.subrange(
            8,
            8 + le64_value(raw),
        )
    }

    fn encode(&self) -> (encoded: Result<Vec<u8>, bincode2::Error>)
        ensures
            encoded is Ok,
    {
        encode_bytes(self)
    }

    fn decode(raw: Vec<u8>) -> (decoded: Result<Vec<u8>, bincode2::Error>) {
        decode_bytes(raw.as_slice())
    }
}

/// A number written out reads back as itself.
pub proof fn lemma_u32_round_trip(value: u32)
    ensures
        <u32 as Encodable>::decodes_to(value.encoding(), value),
{
    lemma_le32_round_trip(value);
}

/// A number written out reads back as itself.
pub proof fn lemma_u64_round_trip(value: u64)
    ensures
        <u64 as Encodable>::decodes_to(value.encoding(), value),
{
    lemma_le64_round_trip(value);
}

/// A run of bytes written out reads back as the same bytes.
pub proof fn lemma_bytes_round_trip(value: Vec<u8>)
    requires
        value@.len() <= u64::MAX,
    ensures
        <Vec<u8> as Encodable>::decodes(value.encoding()),
        forall|read: Vec<u8>|
            <Vec<u8> as Encodable>::decodes_to(value.encoding(), read) ==> read@ == value@,
{
    lemma_le64_round_trip(value@.len() as u64);
    let raw = value.encoding();
    assert(raw.subrange(0, 8) =~= le64_bytes(value@.len() as u64));
    assert(le64_value(raw) == le64_value(raw.subrange(0, 8)));
    assert(raw.subrange(8, 8 + value@.len() as int) =~= value@);
}

} // verus!

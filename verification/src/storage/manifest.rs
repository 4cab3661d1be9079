//! How a file was stored: the ordered chunks it is made of.
use vstd::prelude::*;

use super::error::Error;
use super::key::{lemma_key_len, Key};
use crate::bytes::{
    be_bytes, be_value, lemma_be_value_of_bytes, push_all, push_u64, read_u64,
};

verus! {

/// How long one chunk record is: the digest and the length.
pub const CHUNK_RECORD_LEN: usize = 40;

/// One piece of a stored file: where its content sits, and how long it is.
#[derive(Debug, Clone, Copy, PartialEq, Eq)]
pub struct Chunk {
    /// The key the chunk's content is stored under.
    key: Key,
    /// The length, in bytes, of the chunk's content.
    len: u64,
}

impl View for Chunk {
    /// The digest the chunk is kept under, and its length.
    type V = (Seq<u8>, u64);

    closed spec fn view(&self) -> (Seq<u8>, u64) {
        (self.key@, self.len)
    }
}

impl Chunk {
    /// A chunk made of `len` bytes kept under `key`.
    pub fn new(key: Key, len: u64) -> (chunk: Chunk)
        ensures
            chunk@ == (key@, len),
    {
        Chunk { key, len }
    }

    /// The key the chunk's content is stored under.
    pub fn key(&self) -> (key: Key)
        ensures
            key@ == self@.0,
    {
        self.key
    }

    /// The length, in bytes, of the chunk's content.
    pub fn len(&self) -> (len: u64)
        ensures
            len == self@.1,
    {
        self.len
    }

    /// Whether the chunk holds nothing.
    pub fn is_empty(&self) -> (empty: bool)
        ensures
            empty == (self@.1 == 0),
    {
        self.len == 0
    }
}

/// Every chunk's digest is a digest of the hash's width.
pub proof fn lemma_chunk_digest_len(chunk: Chunk)
    ensures
        chunk@.0.len() == 32,
{
    lemma_key_len(chunk.key);
}

/// How a file was stored: the ordered chunks it is made of.
///
/// A manifest is the whole of what a reader needs to put content back together, and it is free
/// of any hint about how the chunks were found.
#[derive(Debug, Clone, PartialEq, Eq)]
pub struct Manifest {
    /// The chunks, in the order their content appears.
    chunks: Vec<Chunk>,
}

impl Default for Manifest {
    /// A manifest of no chunks.
    fn default() -> (manifest: Manifest)
        ensures
            manifest@ == Seq::<(Seq<u8>, u64)>::empty(),
    {
        Manifest::empty()
    }
}

impl View for Manifest {
    type V = Seq<(Seq<u8>, u64)>;

    closed spec fn view(&self) -> Seq<(Seq<u8>, u64)> {
        self.chunks@.map_values(|chunk: Chunk| chunk@)
    }
}

/// The records of `chunks`, one after another: each digest and then its length.
pub open spec fn chunk_records(chunks: Seq<(Seq<u8>, u64)>) -> Seq<u8>
    decreases chunks.len(),
{
    if chunks.len() == 0 {
        Seq::empty()
    } else {
        chunk_records(chunks.drop_last()) + chunks.last().0 + be_bytes(chunks.last().1)
    }
}

/// The bytes a manifest of `chunks` is written as: the count, and then one record per chunk.
pub open spec fn manifest_bytes(chunks: Seq<(Seq<u8>, u64)>) -> Seq<u8> {
    be_bytes(chunks.len() as u64) + chunk_records(chunks)
}

/// The chunk whose record starts `at` bytes into `records`.
pub open spec fn chunk_at(records: Seq<u8>, at: int) -> (Seq<u8>, u64) {
    (records.subrange(at, at + 32), be_value(records.subrange(at + 32, at + 40)))
}

/// The manifest `bytes` reads as, if it reads as one: a count, and exactly that many records
/// after it.
pub open spec fn manifest_of(bytes: Seq<u8>) -> Option<Seq<(Seq<u8>, u64)>> {
    if bytes.len() < 8 {
        None
    } else {
        let count = be_value(bytes.subrange(0, 8));
        let records = bytes.subrange(8, bytes.len() as int);
        if records.len() != count * 40 {
            None
        } else {
            Some(Seq::new(count as nat, |i: int| chunk_at(records, 40 * i)))
        }
    }
}

/// Records of digests of the hash's width are forty bytes each, and each one is where its
/// position says.
proof fn lemma_chunk_records(chunks: Seq<(Seq<u8>, u64)>)
    requires
        forall|i: int| 0 <= i < chunks.len() ==> (#[trigger] chunks[i]).0.len() == 32,
    ensures
        chunk_records(chunks).len() == 40 * chunks.len(),
        forall|i: int|
            0 <= i < chunks.len() ==> chunk_at(chunk_records(chunks), 40 * i) == #[trigger] chunks[i],
    decreases chunks.len(),
{
    if chunks.len() > 0 {
        let front = chunks.drop_last();
        let last = chunks.last();
        lemma_chunk_records(front);
        lemma_be_value_of_bytes(last.1);
        let all = chunk_records(chunks);
        let before = chunk_records(front);
        assert forall|i: int| 0 <= i < chunks.len() implies chunk_at(all, 40 * i)
            == #[trigger] chunks[i] by {
            if i < chunks.len() - 1 {
                assert(all.subrange(40 * i, 40 * i + 32) =~= before.subrange(40 * i, 40 * i + 32));
                assert(all.subrange(40 * i + 32, 40 * i + 40) =~= before.subrange(
                    40 * i + 32,
                    40 * i + 40,
                ));
                assert(chunks[i] == front[i]);
            } else {
                assert(all.subrange(40 * i, 40 * i + 32) =~= last.0);
                assert(all.subrange(40 * i + 32, 40 * i + 40) =~= be_bytes(last.1));
            }
        }
    }
}

/// A manifest reads back as the chunks it was written from.
pub proof fn lemma_manifest_round_trip(chunks: Seq<(Seq<u8>, u64)>)
    requires
        forall|i: int| 0 <= i < chunks.len() ==> (#[trigger] chunks[i]).0.len() == 32,
        chunks.len() <= u64::MAX,
    ensures
        manifest_of(manifest_bytes(chunks)) == Some(chunks),
{
    lemma_chunk_records(chunks);
    lemma_be_value_of_bytes(chunks.len() as u64);
    let bytes = manifest_bytes(chunks);
    assert(bytes.subrange(0, 8) =~= be_bytes(chunks.len() as u64));
    assert(bytes.subrange(8, bytes.len() as int) =~= chunk_records(chunks));
    let read = manifest_of(bytes).unwrap();
    assert(read =~= chunks);
}

/// The total length of `chunks`.
pub open spec fn chunks_len(chunks: Seq<(Seq<u8>, u64)>) -> nat
    decreases chunks.len(),
{
    if chunks.len() == 0 {
        0
    } else {
        chunks_len(chunks.drop_last()) + chunks.last().1 as nat
    }
}

impl Manifest {
    /// A manifest of `chunks`, in the order their content appears.
    pub fn new(chunks: Vec<Chunk>) -> (manifest: Manifest)
        ensures
            manifest@ == chunks@.map_values(|chunk: Chunk| chunk@),
    {
        Manifest { chunks }
    }

    /// A manifest of no chunks.
    pub fn empty() -> (manifest: Manifest)
        ensures
            manifest@ == Seq::<(Seq<u8>, u64)>::empty(),
    {
        let manifest = Manifest { chunks: Vec::new() };
        assert(manifest@ =~= Seq::<(Seq<u8>, u64)>::empty());
        manifest
    }

    /// The chunks, in the order their content appears.
    pub fn chunks(&self) -> (chunks: &[Chunk])
        ensures
            chunks@.map_values(|chunk: Chunk| chunk@) == self@,
    {
        self.chunks.as_slice()
    }

    /// How many chunks the file is made of.
    pub fn len(&self) -> (count: usize)
        ensures
            count == self@.len(),
    {
        self.chunks.len()
    }

    /// Whether the manifest names no chunk at all.
    pub fn is_empty(&self) -> (empty: bool)
        ensures
            empty == (self@.len() == 0),
    {
        self.chunks.len() == 0
    }

    /// Adds a chunk after the ones already here.
    pub fn push(&mut self, chunk: Chunk)
        ensures
            final(self)@ == old(self)@.push(chunk@),
    {
        self.chunks.push(chunk);
        assert(self@ =~= old(self)@.push(chunk@));
    }

    /// The length, in bytes, of the whole content the chunks add up to.
    ///
    /// The lengths are summed as `u64`s, so a manifest whose lengths add up to more than one can
    /// hold is not one this is asked of.
    pub fn content_len(&self) -> (total: u64)
        requires
            chunks_len(self@) <= u64::MAX,
        ensures
            total == chunks_len(self@),
    {
        let mut total: u64 = 0;
        let mut i: usize = 0;
        while i < self.chunks.len()
            invariant
                i <= self.chunks@.len(),
                self@.len() == self.chunks@.len(),
                chunks_len(self@) <= u64::MAX,
                total == chunks_len(self@.subrange(0, i as int)),
            decreases self.chunks.len() - i,
        {
            proof {
                assert(self@.subrange(0, i + 1).drop_last() =~= self@.subrange(0, i as int));
                lemma_chunks_len_prefix(self@, i + 1);
            }
            total = total + self.chunks[i].len;
            i = i + 1;
        }
        assert(self@.subrange(0, i as int) =~= self@);
        total
    }

    /// Writes the manifest down, so it can be read back by `decode`: a count and then one
    /// record per chunk, the digest and the length.
    ///
    /// What is written reads back, by `decode`, as the manifest that was written.
    pub fn encode(&self) -> (bytes: Vec<u8>)
        ensures
            bytes@ == manifest_bytes(self@),
            manifest_of(bytes@) == Some(self@),
    {
        let mut bytes = Vec::new();
        let count = self.chunks.len();
        proof {
            assert forall|i: int| 0 <= i < self@.len() implies (#[trigger] self@[i]).0.len()
                == 32 by {
                lemma_chunk_digest_len(self.chunks@[i]);
            }
            lemma_manifest_round_trip(self@);
        }
        push_u64(&mut bytes, count as u64);
        let mut i: usize = 0;
        while i < self.chunks.len()
            invariant
                i <= self.chunks@.len(),
                self@.len() == self.chunks@.len(),
                bytes@ == be_bytes(self@.len() as u64) + chunk_records(self@.subrange(0, i as int)),
            decreases self.chunks.len() - i,
        {
            let chunk = self.chunks[i];
            assert(self@[i as int] == chunk@);
            push_all(&mut bytes, chunk.key.digest());
            push_u64(&mut bytes, chunk.len);
            proof {
                assert(self@.subrange(0, i + 1).drop_last() =~= self@.subrange(0, i as int));
            }
            i = i + 1;
            assert(bytes@ =~= be_bytes(self@.len() as u64) + chunk_records(
                self@.subrange(0, i as int),
            ));
        }
        assert(self@.subrange(0, i as int) =~= self@);
        bytes
    }

    /// Reads a manifest written by `encode`.
    ///
    /// Returns `Error::Malformed` if `bytes` does not read as a manifest: a count that will not
    /// fit, a record that is cut short, or bytes left over at the end.
    pub fn decode(bytes: &[u8]) -> (manifest: Result<Manifest, Error>)
        ensures
            manifest matches Ok(m) ==> manifest_of(bytes@) == Some(m@),
            manifest matches Err(error) ==> error is Malformed && manifest_of(bytes@) is None,
    {
        if bytes.len() < 8 {
            return Err(Error::Malformed);
        }
        let count = read_u64(bytes, 0);
        let ghost records = bytes@.subrange(8, bytes@.len() as int);
        let rest = (bytes.len() - 8) as u64;
        if rest % 40 != 0 || rest / 40 != count {
            return Err(Error::Malformed);
        }
        let mut chunks: Vec<Chunk> = Vec::new();
        let mut i: usize = 0;
        let total = (rest / 40) as usize;
        let n = bytes.len();
        while i < total
            invariant
                i <= total,
                n == bytes@.len(),
                total == count,
                bytes@.len() == 8 + 40 * count,
                records == bytes@.subrange(8, bytes@.len() as int),
                chunks@.len() == i,
                forall|j: int|
                    0 <= j < i ==> (#[trigger] chunks@[j])@ == chunk_at(records, 40 * j),
            decreases total - i,
        {
            assert(40 * (i as int) + 40 <= 40 * (count as int)) by (nonlinear_arith)
                requires
                    i < count,
            ;
            let at = 8 + 40 * i;
            let len = read_u64(bytes, at + 32);
            let chunk = Chunk::new(Key::read(bytes, at), len);
            proof {
                assert(bytes@.subrange(at as int, at + 32) =~= records.subrange(40 * i, 40 * i + 32));
                assert(bytes@.subrange(at + 32, at + 40) =~= records.subrange(
                    40 * i + 32,
                    40 * i + 40,
                ));
            }
            chunks.push(chunk);
            i = i + 1;
        }
        let manifest = Manifest { chunks };
        assert(manifest@ =~= manifest_of(bytes@).unwrap());
        Ok(manifest)
    }
}

/// The total of a prefix one longer is the total of the shorter one and the chunk after it.
proof fn lemma_chunks_len_prefix(chunks: Seq<(Seq<u8>, u64)>, n: int)
    requires
        0 < n <= chunks.len(),
    ensures
        chunks_len(chunks.subrange(0, n)) == chunks_len(chunks.subrange(0, n - 1)) + chunks[n - 1].1,
        chunks_len(chunks.subrange(0, n)) <= chunks_len(chunks),
    decreases chunks.len() - n,
{
    assert(chunks.subrange(0, n).drop_last() =~= chunks.subrange(0, n - 1));
    if n < chunks.len() {
        lemma_chunks_len_prefix(chunks, n + 1);
    } else {
        assert(chunks.subrange(0, n) =~= chunks);
    }
}

} // verus!

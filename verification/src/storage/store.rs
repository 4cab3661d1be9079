//! Rorolala's own store: where it lays things down, how it decides what to do with content, and
//! how an entry is framed on the way in and read on the way out.
//!
//! The reading and writing of files is the caller's; what is here is every decision the store
//! makes about them, so the same content written with the same choice always lands as the same
//! bytes at the same place, and what is read back is what was written.
use vstd::prelude::*;

use std::ops::Range;

use super::algorithm::AlgorithmChoice;
use super::chunk::{covers, Chunking};
use super::codec::{decoded_by, encodable, encoded_by, Codec};
use super::error::Error;
use super::frame::{frame_header, frame_of, lemma_frame_round_trip, Frame, Layout, FRAME_VERSION, HEADER_LEN};
use super::key::Key;
use super::manifest::{manifest_of, Chunk, Manifest};
use super::zip::zip_magic;
use crate::bytes::{copied, push_all};
use crate::decimal::{decimal_chars, decimal_text, number_of, read_number};
use crate::text::{hex_of_byte, hex_text, push_text};

verus! {

/// The file that makes a directory a store, at its root.
pub const STORAGE_CONFIG_PATH: &'static str = "rolast.toml";

/// The suffix a temporary file's name ends in.
pub const TEMPORARY_SUFFIX: &'static str = ".tmp";

/// The directory loose objects are kept under, inside a store's root.
pub const OBJECTS_DIR: &'static str = "obj";

/// The directory manifests are kept under, inside a store's root.
pub const MANIFEST_DIR: &'static str = "manifest";

/// The directory packs are kept under, inside a store's root.
pub const PACKED_DIR: &'static str = "packed";

/// How many bytes are read to tell what content is.
pub const SNIFF_LEN: usize = 8000;

/// Text at or above this many bytes is cut as well as compressed.
pub const TEXT_CUT_FROM: usize = 4096;

/// The standard library's owned path.
#[verifier::external_type_specification]
#[verifier::external_body]
pub struct ExPathBuf(std::path::PathBuf);

/// The digest `blake3` makes of `content`.
pub uninterp spec fn blake3_of(content: Seq<u8>) -> Seq<u8>;

/// The `blake3` hash of `content`, by `blake3::hash`.
///
/// The contract names the result: a function of the content alone, and 32 bytes long as the
/// array it is returned in is.
#[verifier::external_body]
fn blake3_digest(content: &[u8]) -> (digest: [u8; 32])
    ensures
        digest@ == blake3_of(content@),
{
    *blake3::hash(content).as_bytes()
}

/// The key content is stored under: the hash of the content itself.
pub fn key_of(content: &[u8]) -> (key: Key)
    ensures
        key@ == blake3_of(content@),
{
    Key::new(blake3_digest(content))
}

/// Fails with [`Error::Corrupt`] unless `content` hashes to `key`.
pub fn verify(key: &Key, content: &[u8]) -> (checked: Result<(), Error>)
    ensures
        checked is Ok <==> blake3_of(content@) == key@,
        checked matches Err(error) ==> error == Error::Corrupt(*key),
{
    if key_of(content).same_as(key) {
        Ok(())
    } else {
        Err(Error::Corrupt(*key))
    }
}

/// The cut text is written with once it is big enough to cut: whole lines, chunks about four
/// KiB long and never under one or (but for a line) over sixteen.
pub open spec fn text_cut_spec() -> Chunking {
    Chunking::Text { min: 1024, average: 4096, max: 16384 }
}

/// The cut text is written with once it is big enough to cut.
pub fn text_cut() -> (cut: Chunking)
    ensures
        cut == text_cut_spec(),
{
    Chunking::Text { min: 1024, average: 4096, max: 16384 }
}

/// Whether `magic`, the first bytes of some content, starts a packed container.
pub open spec fn starts_container(magic: Seq<u8>) -> bool {
    magic.len() >= 4 && magic.subrange(0, 4) == zip_magic()
}

/// Whether `magic`, the first bytes of some content, reads as text: no zero byte in it.
pub open spec fn reads_as_text(magic: Seq<u8>) -> bool {
    !magic.contains(0u8)
}

/// How content that opens with `magic` and is `size` bytes long is written, by a store that
/// writes what it has no better answer for with `codec` and `cut`.
pub open spec fn choice_for(magic: Seq<u8>, size: int, codec: Codec, cut: Chunking) -> (Codec, Chunking) {
    if starts_container(magic) {
        (Codec::Raw, Chunking::Zip)
    } else if reads_as_text(magic) {
        (Codec::Zstd, if size < TEXT_CUT_FROM { Chunking::Whole } else { text_cut_spec() })
    } else {
        (codec, cut)
    }
}

/// Whether `magic` starts a signature this store recognises: a ZIP's, which is what tells a
/// packed container from content of any other kind.
pub fn starts_a_container(magic: &[u8]) -> (found: bool)
    ensures
        found == starts_container(magic@),
{
    if magic.len() < 4 {
        return false;
    }
    let found = magic[0] == 80u8 && magic[1] == 75u8 && magic[2] == 3u8 && magic[3] == 4u8;
    proof {
        if found {
            assert(magic@.subrange(0, 4) =~= zip_magic());
        } else if magic@.subrange(0, 4) == zip_magic() {
            assert(magic@.subrange(0, 4)[0] == magic@[0]);
            assert(magic@.subrange(0, 4)[1] == magic@[1]);
            assert(magic@.subrange(0, 4)[2] == magic@[2]);
            assert(magic@.subrange(0, 4)[3] == magic@[3]);
        }
    }
    found
}

/// Whether `magic` reads as text: a zero byte is what says content is not text, which is the
/// rule `git` reads a file by.
pub fn is_text(magic: &[u8]) -> (text: bool)
    ensures
        text == reads_as_text(magic@),
{
    let mut i: usize = 0;
    while i < magic.len()
        invariant
            i <= magic@.len(),
            forall|k: int| 0 <= k < i ==> magic@[k] != 0u8,
        decreases magic.len() - i,
    {
        if magic[i] == 0u8 {
            assert(magic@.contains(0u8)) by {
                assert(magic@[i as int] == 0u8);
            }
            return false;
        }
        i = i + 1;
    }
    true
}

/// Rorolala's store of objects, kept under the content addresses they are named by.
///
/// A directory is one once it carries a configuration ([`STORAGE_CONFIG_PATH`]). Under its root:
///
/// ```text
/// <root>/rolast.toml                  what makes the directory a store
/// <root>/obj/<hh>/<hh>/<hex>          loose objects, sharded by the digest
/// <root>/manifest/<hh>/<hh>/<hex>     how a chunked content is put back together
/// <root>/packed/packed_<n>.pack       many entries in one file
/// <root>/packed/packed_<n>.idx        where each object sits inside a pack
/// ```
#[derive(Debug)]
pub struct RorolalaStorage {
    /// The directory the store is rooted at.
    root: std::path::PathBuf,
    /// The cut content is written with once it is big enough to cut.
    cut: Chunking,
    /// The codec content is written with once it is worth compressing.
    codec: Codec,
}

impl View for RorolalaStorage {
    /// The cut and the codec the store writes with when it has no better answer.
    type V = (Chunking, Codec);

    closed spec fn view(&self) -> (Chunking, Codec) {
        (self.cut, self.codec)
    }
}

impl RorolalaStorage {
    /// The directory the store is rooted at.
    pub closed spec fn root_spec(&self) -> std::path::PathBuf {
        self.root
    }

    /// A store rooted at `root`, writing content the way a store does: whole, and as it came in.
    pub fn rooted(root: std::path::PathBuf) -> (store: RorolalaStorage)
        ensures
            store@ == (Chunking::Whole, Codec::Raw),
            store.root_spec() == root,
    {
        RorolalaStorage { root, cut: Chunking::Whole, codec: Codec::Raw }
    }

    /// The directory the store is rooted at.
    pub fn root(&self) -> (root: &std::path::PathBuf)
        ensures
            *root == self.root_spec(),
    {
        &self.root
    }

    /// The cut this store writes content with once it is big enough to cut.
    pub fn cut(&self) -> (cut: Chunking)
        ensures
            cut == self@.0,
    {
        self.cut
    }

    /// The codec this store writes content with once it is worth compressing.
    pub fn codec(&self) -> (codec: Codec)
        ensures
            codec == self@.1,
    {
        self.codec
    }

    /// Writes content with `cut` once it is big enough to cut.
    pub fn with_cut(self, cut: Chunking) -> (store: RorolalaStorage)
        ensures
            store@ == (cut, self@.1),
            store.root_spec() == self.root_spec(),
    {
        RorolalaStorage { root: self.root, cut, codec: self.codec }
    }

    /// Writes content with `codec` once it is worth compressing.
    pub fn with_codec(self, codec: Codec) -> (store: RorolalaStorage)
        ensures
            store@ == (self@.0, codec),
            store.root_spec() == self.root_spec(),
    {
        RorolalaStorage { root: self.root, cut: self.cut, codec }
    }

    /// Chooses how content is written, from its opening and how long it is.
    ///
    /// A packed container is cut at the boundaries of what it packs and stored as it is; text is
    /// compressed, and cut at the ends of its lines once there is enough of it; anything else is
    /// written the way the store was told to write.
    pub fn choose_for(&self, magic: &[u8], size: usize) -> (choice: AlgorithmChoice)
        ensures
            choice@ == choice_for(magic@, size as int, self@.1, self@.0),
    {
        if starts_a_container(magic) {
            return AlgorithmChoice::new(Codec::Raw, Chunking::Zip);
        }
        if is_text(magic) {
            let chunking = if size < TEXT_CUT_FROM { Chunking::Whole } else { text_cut() };
            return AlgorithmChoice::new(Codec::Zstd, chunking);
        }
        AlgorithmChoice::new(self.codec, self.cut)
    }
}

/// A copy of the path `path`, by `PathBuf::clone`: the same path, as the standard library
/// documents a clone to be.
#[verifier::external_body]
pub(crate) fn copy_path(path: &std::path::PathBuf) -> (copy: std::path::PathBuf)
    ensures
        copy == *path,
{
    path.clone()
}

impl Clone for RorolalaStorage {
    fn clone(&self) -> (copy: RorolalaStorage)
        ensures
            copy@ == self@,
            copy.root_spec() == self.root_spec(),
    {
        RorolalaStorage { root: copy_path(&self.root), cut: self.cut, codec: self.codec }
    }
}

/// Where, under a store's root, the entry kept under the digest `digest` sits in `directory`: the
/// directory, then the first byte of the digest in hex, then the second, then the whole digest.
///
/// The digest is sharded two levels deep, so no directory collects an unbounded number of
/// entries.
pub open spec fn sharded_parts(directory: Seq<char>, digest: Seq<u8>) -> Seq<Seq<char>> {
    seq![directory, hex_text(digest.subrange(0, 1)), hex_text(digest.subrange(1, 2)), hex_text(digest)]
}

/// The first two shards of a path are the first four characters of the digest in hex.
pub proof fn lemma_shards_are_hex_prefix(digest: Seq<u8>)
    requires
        digest.len() >= 2,
    ensures
        hex_text(digest.subrange(0, 1)) + hex_text(digest.subrange(1, 2)) == hex_text(digest).subrange(0, 4),
{
    lemma_hex_text_prefix(digest, 2);
    assert(digest.subrange(0, 2).drop_last() =~= digest.subrange(0, 1));
    assert(digest.subrange(0, 1).drop_last() =~= Seq::<u8>::empty());
    assert(digest.subrange(1, 2).drop_last() =~= Seq::<u8>::empty());
    assert(digest.subrange(0, 2).last() == digest.subrange(1, 2).last());
    assert(hex_text(Seq::<u8>::empty()) =~= Seq::<char>::empty());
}

/// The hex of a prefix of the bytes is the matching prefix of their hex.
pub proof fn lemma_hex_text_prefix(bytes: Seq<u8>, k: int)
    requires
        0 <= k <= bytes.len(),
    ensures
        hex_text(bytes).subrange(0, 2 * k) == hex_text(bytes.subrange(0, k)),
        hex_text(bytes).len() == 2 * bytes.len(),
    decreases bytes.len(),
{
    crate::text::lemma_hex_text_len(bytes);
    if k < bytes.len() {
        lemma_hex_text_prefix(bytes.drop_last(), k);
        crate::text::lemma_hex_text_len(bytes.drop_last());
        assert(bytes.drop_last().subrange(0, k) =~= bytes.subrange(0, k));
        assert(hex_text(bytes).subrange(0, 2 * k) =~= hex_text(bytes.drop_last()).subrange(0, 2 * k));
    } else {
        assert(bytes.subrange(0, k) =~= bytes);
        assert(hex_text(bytes).subrange(0, 2 * k) =~= hex_text(bytes));
    }
}

/// Where, under the store's root, the entry kept under `key` sits in `directory`.
pub fn sharded(directory: &str, key: &Key) -> (parts: Vec<String>)
    ensures
        parts@.map_values(|part: String| part@) == sharded_parts(directory@, key@),
{
    let digest = key.digest();
    proof {
        crate::storage::key::lemma_key_len(*key);
        assert(key@.subrange(0, 1) =~= seq![key@[0]]);
        assert(key@.subrange(1, 2) =~= seq![key@[1]]);
    }
    let mut parts: Vec<String> = Vec::new();
    parts.push(directory.to_owned());
    parts.push(hex_of_byte(digest[0]));
    parts.push(hex_of_byte(digest[1]));
    parts.push(key.hex());
    assert(parts@.map_values(|part: String| part@) =~= sharded_parts(directory@, key@));
    parts
}

/// The name the file of pack `index` is given: `packed_<index>.pack`.
pub open spec fn pack_file_name(index: u64) -> Seq<char> {
    "packed_"@ + decimal_chars(index as nat) + ".pack"@
}

/// The name the index of pack `index` is given: `packed_<index>.idx`.
pub open spec fn pack_index_name(index: u64) -> Seq<char> {
    "packed_"@ + decimal_chars(index as nat) + ".idx"@
}

/// The name the file of pack `index` is given.
pub fn pack_file(index: u64) -> (name: String)
    ensures
        name@ == pack_file_name(index),
{
    let mut name = String::new();
    push_text(&mut name, "packed_");
    push_text(&mut name, decimal_text(index).as_str());
    push_text(&mut name, ".pack");
    name
}

/// The name the index of pack `index` is given.
pub fn pack_index_file(index: u64) -> (name: String)
    ensures
        name@ == pack_index_name(index),
{
    let mut name = String::new();
    push_text(&mut name, "packed_");
    push_text(&mut name, decimal_text(index).as_str());
    push_text(&mut name, ".idx");
    name
}

/// Where, under a store's root, the file of pack `index` sits, and where its index sits beside
/// it.
pub fn pack_parts(index: u64) -> (parts: (Vec<String>, Vec<String>))
    ensures
        parts.0@.map_values(|part: String| part@) == seq![PACKED_DIR@, pack_file_name(index)],
        parts.1@.map_values(|part: String| part@) == seq![PACKED_DIR@, pack_index_name(index)],
{
    let mut file: Vec<String> = Vec::new();
    file.push(PACKED_DIR.to_owned());
    file.push(pack_file(index));
    let mut directory: Vec<String> = Vec::new();
    directory.push(PACKED_DIR.to_owned());
    directory.push(pack_index_file(index));
    assert(file@.map_values(|part: String| part@) =~= seq![PACKED_DIR@, pack_file_name(index)]);
    assert(directory@.map_values(|part: String| part@) =~= seq![PACKED_DIR@, pack_index_name(index)]);
    (file, directory)
}

/// The bytes `packed_`, which a pack's name starts with.
pub open spec fn pack_prefix() -> Seq<u8> {
    seq![112u8, 97u8, 99u8, 107u8, 101u8, 100u8, 95u8]
}

/// The bytes `.idx`, which the name of a pack's index ends with.
pub open spec fn index_suffix() -> Seq<u8> {
    seq![46u8, 105u8, 100u8, 120u8]
}

/// The pack number the name `name` (its bytes) stands for, if it is the name of a pack's index
/// written the one way this build writes it: `packed_`, the number in decimal with no zero in
/// front, and `.idx`.
pub open spec fn pack_number_of(name: Seq<u8>) -> Option<u64> {
    if name.len() >= 11 && name.subrange(0, 7) == pack_prefix() && name.subrange(
        name.len() - 4,
        name.len() as int,
    ) == index_suffix() {
        number_of(name.subrange(7, name.len() - 4))
    } else {
        None
    }
}

/// The pack number a pack index's name stands for, if it is one.
///
/// Only the names this build writes are read: `packed_007.idx` reads as a number, but the pack of
/// seven is `packed_7.idx`, so listing it would name a pack nothing could then find.
pub fn index_of_pack(name: &[u8]) -> (index: Option<u64>)
    ensures
        index == pack_number_of(name@),
{
    let len = name.len();
    if len < 11 {
        return None;
    }
    let prefix = name[0] == 112u8 && name[1] == 97u8 && name[2] == 99u8 && name[3] == 107u8 && name[4]
        == 101u8 && name[5] == 100u8 && name[6] == 95u8;
    let suffix = name[len - 4] == 46u8 && name[len - 3] == 105u8 && name[len - 2] == 100u8 && name[len
        - 1] == 120u8;
    proof {
        let front = name@.subrange(0, 7);
        let back = name@.subrange(len - 4, len as int);
        if prefix {
            assert(front =~= pack_prefix());
        } else if front == pack_prefix() {
            assert(front[0] == name@[0] && front[1] == name@[1] && front[2] == name@[2]);
            assert(front[3] == name@[3] && front[4] == name@[4] && front[5] == name@[5]);
            assert(front[6] == name@[6]);
        }
        if suffix {
            assert(back =~= index_suffix());
        } else if back == index_suffix() {
            assert(back[0] == name@[len - 4] && back[1] == name@[len - 3]);
            assert(back[2] == name@[len - 2] && back[3] == name@[len - 1]);
        }
    }
    if !(prefix && suffix) {
        return None;
    }
    let middle = copied(&name[7..len - 4]);
    assert(middle@ =~= name@.subrange(7, len - 4));
    read_number(middle.as_slice())
}

/// The bytes of text that is all ASCII.
pub open spec fn ascii_bytes(text: Seq<char>) -> Seq<u8> {
    text.map_values(|c: char| c as u8)
}

/// A pack's index is found again by the name it is given: the name reads back as the pack's
/// number.
pub proof fn lemma_pack_index_name_reads_back(index: u64)
    ensures
        pack_number_of(ascii_bytes(pack_index_name(index))) == Some(index),
{
    let digits = crate::decimal::decimal_bytes(index as nat);
    crate::decimal::lemma_decimal_reads_back(index as nat);
    let name = ascii_bytes(pack_index_name(index));
    assert(digits.map_values(|b: u8| b as char).map_values(|c: char| c as u8) =~= digits);
    assert(name =~= pack_prefix() + digits + index_suffix()) by {
        reveal_strlit("packed_");
        reveal_strlit(".idx");
    }
    assert(name.subrange(0, 7) =~= pack_prefix());
    assert(name.subrange(name.len() - 4, name.len() as int) =~= index_suffix());
    assert(name.subrange(7, name.len() - 4) =~= digits);
}

/// A name that reads as a pack's number is the very name that pack's index is given.
pub proof fn lemma_pack_number_names_its_index(name: Seq<u8>)
    requires
        pack_number_of(name) is Some,
    ensures
        name == ascii_bytes(pack_index_name(pack_number_of(name)->0)),
{
    let digits = name.subrange(7, name.len() - 4);
    let index = pack_number_of(name)->0;
    crate::decimal::lemma_canonical_writes_back(digits);
    lemma_pack_index_name_reads_back(index);
    let written = ascii_bytes(pack_index_name(index));
    let decimal = crate::decimal::decimal_bytes(index as nat);
    assert(decimal.map_values(|b: u8| b as char).map_values(|c: char| c as u8) =~= decimal);
    assert(written =~= pack_prefix() + decimal + index_suffix()) by {
        reveal_strlit("packed_");
        reveal_strlit(".idx");
    }
    assert(name =~= pack_prefix() + digits + index_suffix()) by {
        assert(name.subrange(0, 7) == pack_prefix());
        assert(name.subrange(name.len() - 4, name.len() as int) == index_suffix());
    }
}

/// The bytes an entry of `layout` holding `plain` is laid down as, written with `codec`: the
/// frame that says how it was written, and then the payload.
pub open spec fn framed_bytes(codec: Codec, layout: Layout, plain: Seq<u8>) -> Seq<u8> {
    frame_header(Frame { version: FRAME_VERSION, codec, layout, plain_len: plain.len() as u64 })
        + encoded_by(codec, plain)
}

/// What an entry `bytes` holds, where it is framed as an entry of `layout` this build reads and
/// its payload decodes to as many bytes as its frame says.
pub open spec fn entry_content(bytes: Seq<u8>, layout: Layout) -> Option<Seq<u8>> {
    match frame_of(bytes) {
        Some(frame) => if frame.layout != layout || frame.plain_len > usize::MAX {
            None
        } else {
            decoded_by(frame.codec, bytes.subrange(15, bytes.len() as int), frame.plain_len as usize)
        },
        None => None,
    }
}

/// Lays `plain` down as an entry of `layout`, written with `codec`.
///
/// Succeeds exactly where `codec` can encode `plain` (everything but an `lz4` block over its
/// limit); returns `Error::Io` otherwise.
pub fn frame_entry(codec: Codec, layout: Layout, plain: &[u8]) -> (entry: Result<Vec<u8>, Error>)
    ensures
        entry is Ok <==> encodable(codec, plain@),
        entry matches Ok(bytes) ==> bytes@ == framed_bytes(codec, layout, plain@),
        entry matches Err(error) ==> error is Io && codec == Codec::Lz4,
{
    let frame = Frame { version: FRAME_VERSION, codec, layout, plain_len: plain.len() as u64 };
    let payload = match codec.encode(plain) {
        Ok(payload) => payload,
        Err(error) => {
            return Err(error);
        },
    };
    let mut bytes = frame.encode();
    push_all(&mut bytes, payload.as_slice());
    Ok(bytes)
}

/// Reads what the entry `bytes` holds, if it is framed as an entry of `layout`.
fn entry_payload(bytes: &[u8], layout: Layout) -> (content: Result<Vec<u8>, Error>)
    ensures
        content matches Ok(plain) ==> entry_content(bytes@, layout) == Some(plain@),
        content matches Err(error) ==> error is Malformed && entry_content(bytes@, layout) is None,
        forall|codec: Codec, plain: Seq<u8>|
            bytes@ == framed_bytes(codec, layout, plain) && encodable(codec, plain) && plain.len()
                <= usize::MAX ==> (content matches Ok(read) && read@ == plain),
{
    let (frame, header) = match Frame::decode(bytes) {
        Ok(read) => read,
        Err(error) => {
            proof {
                assert forall|codec: Codec, plain: Seq<u8>|
                    bytes@ == framed_bytes(codec, layout, plain) implies false by {
                    lemma_frame_round_trip(
                        Frame { version: FRAME_VERSION, codec, layout, plain_len: plain.len() as u64 },
                        encoded_by(codec, plain),
                    );
                }
            }
            return Err(error);
        },
    };
    proof {
        assert forall|codec: Codec, plain: Seq<u8>|
            bytes@ == framed_bytes(codec, layout, plain) && plain.len() <= usize::MAX implies frame
                == Frame { version: FRAME_VERSION, codec, layout, plain_len: plain.len() as u64 }
                && bytes@.subrange(15, bytes@.len() as int) == encoded_by(codec, plain) by {
            let written = Frame { version: FRAME_VERSION, codec, layout, plain_len: plain.len() as u64 };
            lemma_frame_round_trip(written, encoded_by(codec, plain));
            assert(bytes@.subrange(15, bytes@.len() as int) =~= encoded_by(codec, plain));
        }
    }
    if frame.layout != layout {
        return Err(Error::Malformed);
    }
    if frame.plain_len > usize::MAX as u64 {
        return Err(Error::Malformed);
    }
    let payload = copied(&bytes[header..bytes.len()]);
    assert(payload@ =~= bytes@.subrange(15, bytes@.len() as int));
    frame.codec.decode(payload.as_slice(), frame.plain_len as usize)
}

/// The object an entry holds under `key`: what `bytes` holds when framed as one object, checked
/// against the key.
pub open spec fn object_in(key: Key, bytes: Seq<u8>) -> Option<Seq<u8>> {
    match entry_content(bytes, Layout::Single) {
        Some(content) => if blake3_of(content) == key@ { Some(content) } else { None },
        None => None,
    }
}

/// Reads the object the entry `bytes`, stored under `key`, holds.
///
/// Returns `Error::Malformed` if what is stored is not framed as one object this build can
/// read, and `Error::Corrupt` if what it holds does not hash to `key`. An object laid down by
/// [`frame_entry`] reads back as the content it was laid down from.
pub fn open_object(key: &Key, bytes: &[u8]) -> (content: Result<Vec<u8>, Error>)
    ensures
        content matches Ok(plain) ==> object_in(*key, bytes@) == Some(plain@),
        content matches Err(error) ==> (error is Malformed && entry_content(bytes@, Layout::Single)
            is None) || (error == Error::Corrupt(*key) && entry_content(bytes@, Layout::Single) is Some
            && object_in(*key, bytes@) is None),
        content is Ok <==> object_in(*key, bytes@) is Some,
        forall|codec: Codec, plain: Seq<u8>|
            bytes@ == framed_bytes(codec, Layout::Single, plain) && encodable(codec, plain)
                && plain.len() <= usize::MAX && blake3_of(plain) == key@ ==> (content matches Ok(read)
                && read@ == plain),
{
    let content = match entry_payload(bytes, Layout::Single) {
        Ok(content) => content,
        Err(error) => {
            return Err(error);
        },
    };
    match verify(key, content.as_slice()) {
        Ok(()) => Ok(content),
        Err(error) => Err(error),
    }
}

/// The manifest an entry holds: what `bytes` holds when framed as a chunked entry, read as a
/// manifest.
pub open spec fn manifest_in(bytes: Seq<u8>) -> Option<Seq<(Seq<u8>, u64)>> {
    match entry_content(bytes, Layout::Chunked) {
        Some(plain) => manifest_of(plain),
        None => None,
    }
}

/// Reads the manifest the entry `bytes` holds.
///
/// Returns `Error::Malformed` if what is stored is not framed as a chunked entry this build can
/// read, or does not read as a manifest. A manifest laid down by [`frame_entry`] from its own
/// encoding reads back as itself.
pub fn open_manifest(bytes: &[u8]) -> (manifest: Result<Manifest, Error>)
    ensures
        manifest matches Ok(m) ==> manifest_in(bytes@) == Some(m@),
        manifest matches Err(error) ==> error is Malformed && manifest_in(bytes@) is None,
        forall|codec: Codec, plain: Seq<u8>|
            bytes@ == framed_bytes(codec, Layout::Chunked, plain) && encodable(codec, plain)
                && plain.len() <= usize::MAX && manifest_of(plain) is Some ==> (manifest matches Ok(m)
                && manifest_of(plain) == Some(m@)),
{
    let plain = match entry_payload(bytes, Layout::Chunked) {
        Ok(plain) => plain,
        Err(error) => {
            return Err(error);
        },
    };
    Manifest::decode(plain.as_slice())
}

/// The chunks a content cut into `ranges` is named by: the hash of each piece and its length.
pub open spec fn cut_chunks(content: Seq<u8>, ranges: Seq<Range<usize>>) -> Seq<(Seq<u8>, u64)> {
    ranges.map_values(
        |range: Range<usize>|
            (
                blake3_of(content.subrange(range.start as int, range.end as int)),
                (range.end - range.start) as u64,
            ),
    )
}

/// The piece of `content` each range names, in order.
pub open spec fn cut_pieces(content: Seq<u8>, ranges: Seq<Range<usize>>) -> Seq<Seq<u8>> {
    ranges.map_values(|range: Range<usize>| content.subrange(range.start as int, range.end as int))
}

/// The pieces one after another.
pub open spec fn joined_pieces(pieces: Seq<Seq<u8>>) -> Seq<u8>
    decreases pieces.len(),
{
    if pieces.len() == 0 {
        Seq::empty()
    } else {
        joined_pieces(pieces.drop_last()) + pieces.last()
    }
}

/// The pieces and the manifest of content cut into `ranges`: what is laid down as one object per
/// piece, and the manifest that says how they go back together.
pub fn cut(content: &[u8], ranges: &Vec<Range<usize>>) -> (cut: (Vec<Vec<u8>>, Manifest))
    requires
        covers(ranges@, content@.len()),
    ensures
        cut.0@.map_values(|piece: Vec<u8>| piece@) == cut_pieces(content@, ranges@),
        cut.1@ == cut_chunks(content@, ranges@),
{
    let mut pieces: Vec<Vec<u8>> = Vec::new();
    let mut manifest = Manifest::empty();
    let mut i: usize = 0;
    proof {
        lemma_covered_ranges_within(ranges@, content@.len());
    }
    while i < ranges.len()
        invariant
            i <= ranges@.len(),
            forall|k: int| 0 <= k < ranges@.len() ==> (#[trigger] ranges@[k]).start <= ranges@[k].end
                <= content@.len(),
            pieces@.map_values(|piece: Vec<u8>| piece@) == cut_pieces(content@, ranges@.take(i as int)),
            manifest@ == cut_chunks(content@, ranges@.take(i as int)),
        decreases ranges.len() - i,
    {
        let start = ranges[i].start;
        let end = ranges[i].end;
        let piece = copied(&content[start..end]);
        assert(piece@ =~= content@.subrange(start as int, end as int));
        let chunk_key = key_of(piece.as_slice());
        let ghost pieces_before = pieces@.map_values(|piece: Vec<u8>| piece@);
        let ghost manifest_before = manifest@;
        manifest.push(Chunk::new(chunk_key, (end - start) as u64));
        pieces.push(piece);
        proof {
            let taken = ranges@.take(i + 1);
            assert(taken =~= ranges@.take(i as int).push(ranges@[i as int]));
            assert(pieces@.map_values(|piece: Vec<u8>| piece@) =~= pieces_before.push(piece@));
            assert(cut_pieces(content@, taken) =~= cut_pieces(content@, ranges@.take(i as int)).push(
                content@.subrange(start as int, end as int),
            ));
            assert(cut_chunks(content@, taken) =~= cut_chunks(content@, ranges@.take(i as int)).push(
                (blake3_of(content@.subrange(start as int, end as int)), (end - start) as u64),
            ));
        }
        i = i + 1;
    }
    assert(ranges@.take(i as int) =~= ranges@);
    (pieces, manifest)
}

/// Ranges that cover `len` bytes each lie within them.
pub proof fn lemma_covered_ranges_within(ranges: Seq<Range<usize>>, len: nat)
    requires
        covers(ranges, len),
    ensures
        forall|k: int| 0 <= k < ranges.len() ==> (#[trigger] ranges[k]).start <= ranges[k].end <= len,
{
    assert forall|k: int| 0 <= k < ranges.len() implies (#[trigger] ranges[k]).start <= ranges[k].end
        <= len by {
        lemma_covered_end_below(ranges, len, k);
    }
}

/// The end of every range of a covering is no further than where the last one ends.
proof fn lemma_covered_end_below(ranges: Seq<Range<usize>>, len: nat, k: int)
    requires
        covers(ranges, len),
        0 <= k < ranges.len(),
    ensures
        ranges[k].end <= len,
    decreases ranges.len() - k,
{
    if k < ranges.len() - 1 {
        lemma_covered_end_below(ranges, len, k + 1);
        assert(ranges[k].end == ranges[k + 1].start);
    }
}

/// The pieces a covering cuts content into, put back one after another, are the content.
pub proof fn lemma_cut_pieces_join(content: Seq<u8>, ranges: Seq<Range<usize>>)
    requires
        covers(ranges, content.len()),
    ensures
        joined_pieces(cut_pieces(content, ranges)) == content,
{
    lemma_covered_ranges_within(ranges, content.len());
    lemma_cut_prefix_join(content, ranges, ranges.len() as int);
    assert(ranges.take(ranges.len() as int) =~= ranges);
    if ranges.len() == 0 {
        assert(content =~= Seq::<u8>::empty());
    } else {
        assert(content.subrange(0, content.len() as int) =~= content);
    }
}

/// The first `k` pieces of a covering, put back together, are the content up to where the
/// `k`-th range ends.
proof fn lemma_cut_prefix_join(content: Seq<u8>, ranges: Seq<Range<usize>>, k: int)
    requires
        covers(ranges, content.len()),
        forall|j: int| 0 <= j < ranges.len() ==> (#[trigger] ranges[j]).start <= ranges[j].end
            <= content.len(),
        0 <= k <= ranges.len(),
    ensures
        k == 0 ==> joined_pieces(cut_pieces(content, ranges.take(k))) == Seq::<u8>::empty(),
        k > 0 ==> joined_pieces(cut_pieces(content, ranges.take(k))) == content.subrange(
            0,
            ranges[k - 1].end as int,
        ),
    decreases k,
{
    let pieces = cut_pieces(content, ranges.take(k));
    if k == 0 {
        assert(pieces =~= Seq::<Seq<u8>>::empty());
    } else {
        lemma_cut_prefix_join(content, ranges, k - 1);
        assert(pieces.drop_last() =~= cut_pieces(content, ranges.take(k - 1)));
        let end = ranges[k - 1].end as int;
        let start = ranges[k - 1].start as int;
        if k == 1 {
            assert(start == 0);
            assert(cut_pieces(content, ranges.take(0)) =~= Seq::<Seq<u8>>::empty());
            assert(joined_pieces(pieces) =~= content.subrange(0, end));
        } else {
            assert(ranges[k - 2].end == ranges[k - 1].start);
            assert(joined_pieces(pieces) =~= content.subrange(0, end));
        }
    }
}

/// The content a manifest of `chunks` names, put back together from `pieces`, the objects it
/// names in order: the pieces one after another, where every piece is as long as the manifest
/// says its chunk is.
pub open spec fn assembled(chunks: Seq<(Seq<u8>, u64)>, pieces: Seq<Seq<u8>>) -> Option<Seq<u8>> {
    if pieces.len() == chunks.len() && forall|i: int|
        0 <= i < pieces.len() ==> (#[trigger] pieces[i]).len() == chunks[i].1 {
        Some(joined_pieces(pieces))
    } else {
        None
    }
}

/// The content `manifest` names, put back together from `pieces`, the objects it names in
/// order.
///
/// What the manifest says each chunk should be long is checked against what came back: one that
/// disagrees is a store that does not hold together, and is refused as `Error::Malformed`.
pub fn assemble(manifest: &Manifest, pieces: &Vec<Vec<u8>>) -> (content: Result<Vec<u8>, Error>)
    requires
        pieces@.len() == manifest@.len(),
    ensures
        content matches Ok(bytes) ==> assembled(manifest@, pieces@.map_values(|p: Vec<u8>| p@))
            == Some(bytes@),
        content matches Err(error) ==> error is Malformed && assembled(
            manifest@,
            pieces@.map_values(|p: Vec<u8>| p@),
        ) is None,
{
    let ghost all = pieces@.map_values(|p: Vec<u8>| p@);
    let chunks = manifest.chunks();
    let mut content: Vec<u8> = Vec::new();
    let mut i: usize = 0;
    while i < pieces.len()
        invariant
            i <= pieces@.len(),
            pieces@.len() == manifest@.len(),
            chunks@.len() == manifest@.len(),
            chunks@.map_values(|chunk: Chunk| chunk@) == manifest@,
            all == pieces@.map_values(|p: Vec<u8>| p@),
            forall|k: int| 0 <= k < i ==> (#[trigger] all[k]).len() == manifest@[k].1,
            content@ == joined_pieces(all.take(i as int)),
        decreases pieces.len() - i,
    {
        let piece = &pieces[i];
        let expected = chunks[i].len();
        assert(chunks@.map_values(|chunk: Chunk| chunk@)[i as int] == chunks@[i as int]@);
        if piece.len() as u64 != expected {
            proof {
                assert(all[i as int] == piece@);
            }
            return Err(Error::Malformed);
        }
        let ghost before = content@;
        push_all(&mut content, piece.as_slice());
        proof {
            assert(all.take(i + 1).drop_last() =~= all.take(i as int));
            assert(all[i as int] == piece@);
        }
        i = i + 1;
    }
    assert(all.take(i as int) =~= all);
    Ok(content)
}

/// Content cut by a covering reads back as itself: the pieces it was cut into, read back under
/// the manifest that was written for them, put back together are the content.
pub proof fn lemma_cut_reads_back(content: Seq<u8>, ranges: Seq<Range<usize>>)
    requires
        covers(ranges, content.len()),
        content.len() <= u64::MAX,
    ensures
        assembled(cut_chunks(content, ranges), cut_pieces(content, ranges)) == Some(content),
{
    lemma_covered_ranges_within(ranges, content.len());
    lemma_cut_pieces_join(content, ranges);
    let pieces = cut_pieces(content, ranges);
    let chunks = cut_chunks(content, ranges);
    assert forall|i: int| 0 <= i < pieces.len() implies (#[trigger] pieces[i]).len() == chunks[i].1 by {
        assert(ranges[i].start <= ranges[i].end <= content.len());
    }
}

/// `x`, or the largest `u64` where it is larger: what a saturating sum of `u64`s comes to.
pub open spec fn capped(x: int) -> int {
    if x > u64::MAX { u64::MAX as int } else { x }
}

/// The sum of `lens[a..b]`.
pub open spec fn span_sum(lens: Seq<u64>, a: int, b: int) -> int
    decreases b - a,
{
    if b <= a { 0 } else { span_sum(lens, a, b - 1) + lens[b - 1] }
}

/// Whether `ranges` is how entries of lengths `lens`, taken in order, are put into packs of at
/// most `max` bytes: one after another over all of them, none empty; a pack holds more than one
/// entry only where they fit under `max` together, and a pack is closed only where the next entry
/// would take it over.
pub open spec fn is_pack_cutting(lens: Seq<u64>, ranges: Seq<Range<usize>>, max: u64) -> bool {
    &&& crate::storage::zip::chains(ranges, 0, lens.len() as int)
    &&& forall|i: int|
        0 <= i < ranges.len() ==> {
            let r = #[trigger] ranges[i];
            &&& (r.end - r.start == 1 || capped(span_sum(lens, r.start as int, r.end as int)) <= max)
            &&& (r.end < lens.len() ==> capped(span_sum(lens, r.start as int, r.end + 1)) > max)
        }
}

/// Where the packs of entries of lengths `lens` begin and end, one pack each.
///
/// The entries are taken in the order they are given, and a pack is closed once the next entry
/// would take it over `max`. An entry larger than `max` is a pack of its own, since a limit cannot
/// be met by a single object that is over it.
pub fn pack_ranges(lens: &[u64], max: u64) -> (ranges: Vec<Range<usize>>)
    ensures
        is_pack_cutting(lens@, ranges@, max),
{
    let n = lens.len();
    let mut ranges: Vec<Range<usize>> = Vec::new();
    let mut start: usize = 0;
    let mut size: u64 = 0;
    let mut at: usize = 0;
    while at < n
        invariant
            n == lens@.len(),
            start <= at <= n,
            size == capped(span_sum(lens@, start as int, at as int)),
            at > start ==> (at - start == 1 || capped(span_sum(lens@, start as int, at as int)) <= max),
            crate::storage::zip::chains(ranges@, 0, start as int),
            forall|i: int|
                0 <= i < ranges@.len() ==> {
                    let r = #[trigger] ranges@[i];
                    &&& (r.end - r.start == 1 || capped(span_sum(lens@, r.start as int, r.end as int)) <= max)
                    &&& (r.end < lens@.len() ==> capped(span_sum(lens@, r.start as int, r.end + 1)) > max)
                },
        decreases n - at,
    {
        let len = lens[at];
        let grown = if size > u64::MAX - len { u64::MAX } else { size + len };
        assert(grown == capped(span_sum(lens@, start as int, at + 1)));
        if at > start && grown > max {
            let ghost before = ranges@;
            ranges.push(start..at);
            proof {
                assert forall|i: int| 0 <= i < ranges@.len() - 1 implies #[trigger] ranges@[i].end
                    == ranges@[i + 1].start by {
                    if i < before.len() - 1 {
                        assert(ranges@[i] == before[i] && ranges@[i + 1] == before[i + 1]);
                    } else {
                        assert(ranges@[i] == before[i]);
                    }
                }
                assert forall|i: int| 0 <= i < ranges@.len() implies (#[trigger] ranges@[i]).start
                    < ranges@[i].end by {
                    if i < before.len() {
                        assert(ranges@[i] == before[i]);
                    }
                }
                assert forall|i: int| 0 <= i < ranges@.len() implies {
                    let r = #[trigger] ranges@[i];
                    &&& (r.end - r.start == 1 || capped(span_sum(lens@, r.start as int, r.end as int)) <= max)
                    &&& (r.end < lens@.len() ==> capped(span_sum(lens@, r.start as int, r.end + 1)) > max)
                } by {
                    if i < before.len() {
                        assert(ranges@[i] == before[i]);
                    }
                }
            }
            start = at;
            size = 0;
            let grown_fresh = if size > u64::MAX - len { u64::MAX } else { size + len };
            assert(span_sum(lens@, start as int, start as int) == 0);
            assert(grown_fresh == capped(span_sum(lens@, start as int, at + 1)));
            size = grown_fresh;
        } else {
            size = grown;
        }
        at = at + 1;
    }
    if start < n {
        let ghost before = ranges@;
        ranges.push(start..n);
        proof {
            assert forall|i: int| 0 <= i < ranges@.len() - 1 implies #[trigger] ranges@[i].end
                == ranges@[i + 1].start by {
                if i < before.len() - 1 {
                    assert(ranges@[i] == before[i] && ranges@[i + 1] == before[i + 1]);
                } else {
                    assert(ranges@[i] == before[i]);
                }
            }
            assert forall|i: int| 0 <= i < ranges@.len() implies (#[trigger] ranges@[i]).start
                < ranges@[i].end by {
                if i < before.len() {
                    assert(ranges@[i] == before[i]);
                }
            }
            assert forall|i: int| 0 <= i < ranges@.len() implies {
                let r = #[trigger] ranges@[i];
                &&& (r.end - r.start == 1 || capped(span_sum(lens@, r.start as int, r.end as int)) <= max)
                &&& (r.end < lens@.len() ==> capped(span_sum(lens@, r.start as int, r.end + 1)) > max)
            } by {
                if i < before.len() {
                    assert(ranges@[i] == before[i]);
                }
            }
        }
    }
    ranges
}

/// The number the next pack is given: one past the highest there is, or nothing where there are
/// no packs yet.
pub fn next_pack_number(packs: &[u64]) -> (next: u64)
    ensures
        packs@.len() == 0 ==> next == 0,
        packs@.len() > 0 ==> next == capped(packs@.last() + 1),
{
    if packs.len() == 0 {
        0
    } else {
        let last = packs[packs.len() - 1];
        if last == u64::MAX { u64::MAX } else { last + 1 }
    }
}

/// Whether `values` go up strictly, one after another.
pub open spec fn strictly_increasing(values: Seq<u64>) -> bool {
    forall|i: int, j: int| 0 <= i < j < values.len() ==> values[i] < values[j]
}

/// `values` in order, each once.
pub fn sorted_unique(values: &[u64]) -> (sorted: Vec<u64>)
    ensures
        strictly_increasing(sorted@),
        sorted@.to_set() == values@.to_set(),
{
    let mut sorted: Vec<u64> = Vec::new();
    let mut k: usize = 0;
    while k < values.len()
        invariant
            k <= values@.len(),
            strictly_increasing(sorted@),
            sorted@.to_set() == values@.take(k as int).to_set(),
        decreases values.len() - k,
    {
        let x = values[k];
        let n = sorted.len();
        let mut i: usize = 0;
        while i < n && sorted[i] < x
            invariant
                i <= n,
                n == sorted@.len(),
                forall|j: int| 0 <= j < i ==> sorted@[j] < x,
            decreases n - i,
        {
            i = i + 1;
        }
        let ghost before = sorted@;
        if i < n && sorted[i] == x {
            proof {
                assert(values@.take(k + 1) =~= values@.take(k as int).push(x));
                values@.take(k as int).lemma_push_to_set_commute(x);
                assert(values@.take(k + 1).to_set() =~= values@.take(k as int).to_set().insert(x));
                assert(before.to_set().contains(x)) by {
                    assert(before[i as int] == x);
                }
                assert(before.to_set().insert(x) =~= before.to_set());
            }
        } else {
            sorted.insert(i, x);
            proof {
                assert(sorted@ =~= before.insert(i as int, x));
                assert(values@.take(k + 1) =~= values@.take(k as int).push(x));
                values@.take(k as int).lemma_push_to_set_commute(x);
                assert(values@.take(k + 1).to_set() =~= values@.take(k as int).to_set().insert(x));
                assert(sorted@.to_set() =~= before.to_set().insert(x)) by {
                    assert forall|v: u64| sorted@.to_set().contains(v) <==> before.to_set().insert(x).contains(v) by {
                        if sorted@.to_set().contains(v) {
                            let j = choose|j: int| 0 <= j < sorted@.len() && sorted@[j] == v;
                            if j < i {
                                assert(before[j] == v);
                            } else if j > i {
                                assert(before[j - 1] == v);
                            }
                        }
                        if before.to_set().contains(v) {
                            let j = choose|j: int| 0 <= j < before.len() && before[j] == v;
                            if j < i {
                                assert(sorted@[j] == v);
                            } else {
                                assert(sorted@[j + 1] == v);
                            }
                        }
                        if v == x {
                            assert(sorted@[i as int] == x);
                        }
                    }
                }
                assert forall|a: int, b: int| 0 <= a < b < sorted@.len() implies sorted@[a] < sorted@[b] by {
                    if b < i {
                    } else if b == i {
                    } else if a < i {
                        if i < n {
                            assert(before[i as int] > x);
                            assert(before[i as int] <= before[b - 1]);
                        }
                    } else if a == i {
                        assert(before[i as int] > x);
                        assert(before[i as int] <= before[b - 1]);
                    } else {
                    }
                }
            }
        }
        k = k + 1;
    }
    assert(values@.take(values@.len() as int) =~= values@);
    sorted
}

} // verus!

use std::ops::Range;

use rorolala::storage::codec::Codec;
use rorolala::storage::error::Error;
use rorolala::storage::frame::{Frame, Layout, FRAME_VERSION, HEADER_LEN};
use rorolala::storage::manifest::{Chunk, Manifest};
use rorolala::storage::store::{
    assemble, cut, frame_entry, index_of_pack, key_of, next_pack_number, open_manifest,
    open_object, pack_file, pack_index_file, pack_ranges, sharded, sorted_unique, verify,
};
use rorolala::Key;

/// The digest BLAKE3 gives the empty input.
const EMPTY_DIGEST: &str = "af1349b9f5f9a1a6a0404dea36dcc9499bcb25c9adc112b7cc9a93cae41f3262";

#[test]
fn a_key_is_the_hash_of_its_content() {
    let key = key_of(b"");

    assert_eq!(key.hex(), EMPTY_DIGEST);
    assert_eq!(key.to_string(), format!("blake3:{EMPTY_DIGEST}"));
    assert!(verify(&key, b"").is_ok());
    assert!(matches!(verify(&key, b"x"), Err(Error::Corrupt(k)) if k == key));
}

#[test]
fn a_key_written_out_reads_back() {
    let key = key_of(b"some content");

    assert_eq!(Key::parse(&key.to_string()), Some(key));
    assert_eq!(Key::parse(&key.hex()), Some(key));
    assert_eq!(Key::parse(&key.hex().to_uppercase()), Some(key));
    assert_eq!(Key::parse("blake3:not hex"), None);
    assert_eq!(Key::parse("abcd"), None);
}

#[test]
fn an_entry_sits_under_two_shards_of_its_hex() {
    let key = key_of(b"");

    assert_eq!(
        sharded("obj", &key),
        ["obj".to_string(), "af".to_string(), "13".to_string(), EMPTY_DIGEST.to_string()]
    );
}

#[test]
fn a_header_reads_back_as_the_frame_it_was_written_from() {
    let frame = Frame { version: FRAME_VERSION, codec: Codec::Zstd, layout: Layout::Chunked, plain_len: 300 };
    let mut bytes = frame.encode();
    assert_eq!(bytes.len(), HEADER_LEN);
    bytes.extend_from_slice(b"payload");

    assert_eq!(Frame::decode(&bytes).unwrap(), (frame, HEADER_LEN));
    assert!(matches!(Frame::decode(&bytes[..HEADER_LEN - 1]), Err(Error::Malformed)));
    assert!(matches!(Frame::decode(b"not a frame at all"), Err(Error::Malformed)));
}

#[test]
fn an_object_laid_down_reads_back_with_every_codec() {
    let content = b"the same line, over and over; the same line, over and over".repeat(20);
    let key = key_of(&content);

    for codec in [Codec::Raw, Codec::Lz4, Codec::Zstd] {
        let entry = frame_entry(codec, Layout::Single, &content).unwrap();
        assert_eq!(open_object(&key, &entry).unwrap(), content);
        // The entry is what was written, so the content does not come back as it went in.
        if codec != Codec::Raw {
            assert_ne!(&entry[HEADER_LEN..], &content[..]);
        }
    }
}

#[test]
fn an_object_under_the_wrong_key_is_corrupt() {
    let entry = frame_entry(Codec::Raw, Layout::Single, b"content").unwrap();
    let other = key_of(b"other");

    assert!(matches!(open_object(&other, &entry), Err(Error::Corrupt(k)) if k == other));
    assert!(matches!(open_object(&other, b"nothing framed"), Err(Error::Malformed)));
}

#[test]
fn a_manifest_reads_back_as_it_was_written() {
    let manifest = Manifest::new(vec![Chunk::new(key_of(b"a"), 1), Chunk::new(key_of(b"bc"), 2)]);
    let entry = frame_entry(Codec::Lz4, Layout::Chunked, &manifest.encode()).unwrap();

    assert_eq!(Manifest::decode(&manifest.encode()).unwrap(), manifest);
    assert_eq!(open_manifest(&entry).unwrap(), manifest);
    assert_eq!(manifest.content_len(), 3);
}

#[test]
fn a_content_cut_goes_back_together() {
    let content = b"abcdefghij".to_vec();
    let ranges: Vec<Range<usize>> = vec![0..3, 3..7, 7..10];

    let (pieces, manifest) = cut(&content, &ranges);

    assert_eq!(pieces, vec![b"abc".to_vec(), b"defg".to_vec(), b"hij".to_vec()]);
    assert_eq!(manifest.len(), 3);
    assert_eq!(manifest.chunks()[1].key(), key_of(b"defg"));
    assert_eq!(assemble(&manifest, &pieces).unwrap(), content);

    // A piece that is not as long as the manifest says is refused.
    let short = vec![b"abc".to_vec(), b"def".to_vec(), b"hij".to_vec()];
    assert!(matches!(assemble(&manifest, &short), Err(Error::Malformed)));
}

#[test]
fn a_pack_is_named_by_its_number_and_its_index_reads_back() {
    assert_eq!(pack_file(7), "packed_7.pack");
    assert_eq!(pack_index_file(12), "packed_12.idx");
    assert_eq!(index_of_pack(pack_index_file(12).as_bytes()), Some(12));
    assert_eq!(index_of_pack(b"packed_0.idx"), Some(0));
    assert_eq!(index_of_pack(b"packed_007.idx"), None);
    assert_eq!(index_of_pack(b"packed_7.pack"), None);
    assert_eq!(index_of_pack(b"packed_.idx"), None);
}

#[test]
fn entries_are_packed_in_order_up_to_the_limit() {
    assert_eq!(pack_ranges(&[4, 4, 4, 4], 8), vec![0..2, 2..4]);
    // An entry over the limit is a pack of its own.
    assert_eq!(pack_ranges(&[3, 20, 3], 8), vec![0..1, 1..2, 2..3]);
    assert!(pack_ranges(&[], 8).is_empty());
}

#[test]
fn the_next_pack_is_one_past_the_highest() {
    assert_eq!(next_pack_number(&[]), 0);
    assert_eq!(next_pack_number(&[0, 1, 4]), 5);
    assert_eq!(next_pack_number(&[u64::MAX]), u64::MAX);
    assert_eq!(sorted_unique(&[4, 1, 4, 0]), vec![0, 1, 4]);
}

#[test]
fn a_default_manifest_names_no_chunks() {
    let manifest = Manifest::default();

    assert!(manifest.is_empty());
    assert_eq!(manifest, Manifest::new(Vec::new()));
}

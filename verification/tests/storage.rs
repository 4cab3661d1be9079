use std::ops::Range;

use rorolala::storage::chunk::{Cdc, Chunker, Chunking, Fixed, Text, Whole};
use rorolala::storage::codec::Codec;
use rorolala::storage::config::{StorageConfig, DEFAULT_MAX_PACK_SIZE};
use rorolala::errors::{IoError, IoErrorKind};
use rorolala::storage::error::Error;
use rorolala::storage::lock::LockError;
use rorolala::storage::pack::{PackEntry, PackIndex, PACK_INDEX_VERSION};
use rorolala::storage::transfer::{keys_from_bytes, keys_to_bytes, Wire};
use rorolala::storage::zip::{Zip, CENTRAL_HEADER, END_RECORD, LOCAL_HEADER};
use rorolala::Key;

/// Whether the ranges are in order, do not overlap, and cover `len` bytes exactly.
fn covers(ranges: &[Range<usize>], len: usize) -> bool {
    let mut at = 0;

    for range in ranges {
        if range.start != at || range.end < range.start {
            return false;
        }
        at = range.end;
    }

    at == len
}

/// Bytes that look like noise, the same every time.
fn content(len: usize) -> Vec<u8> {
    let mut state = 0x1234_5678_9ABC_DEF0_u64;

    (0..len)
        .map(|_| {
            state = state
                .wrapping_mul(6_364_136_223_846_793_005)
                .wrapping_add(1_442_695_040_888_963_407);
            state.to_le_bytes()[4]
        })
        .collect()
}

/// Text of the lines from `from` up to `to`.
fn lines(from: usize, to: usize) -> Vec<u8> {
    let mut text = String::new();
    for line in from..to {
        text.push_str(&format!("line {line}\n"));
    }

    text.into_bytes()
}

#[test]
fn the_whole_chunker_covers_everything_in_one_chunk() {
    let ranges = Whole.split(b"abc");

    assert_eq!(ranges.len(), 1);
    assert_eq!(ranges[0], 0..3);
}

#[test]
fn a_fixed_chunker_cuts_at_the_size_and_keeps_the_last_short() {
    let ranges = Fixed::new(4).split(b"0123456789");
    let sizes: Vec<usize> = ranges.iter().map(|range| range.len()).collect();

    assert_eq!(sizes, [4, 4, 2]);
    assert!(covers(&ranges, 10));
}

#[test]
fn a_content_defined_chunker_cuts_within_its_bounds_and_covers_everything() {
    let content = content(100_000);
    let ranges = Cdc::new(64, 256, 1024).split(&content);

    assert!(covers(&ranges, content.len()));
    for range in &ranges {
        assert!(range.len() >= 64, "{range:?}");
        assert!(range.len() <= 1024, "{range:?}");
    }
}

#[test]
fn a_content_defined_chunker_finds_the_same_cuts_twice() {
    let content = content(4096);
    let chunker = Cdc::new(32, 128, 512);

    assert_eq!(chunker.split(&content), chunker.split(&content));
}

#[test]
fn an_insertion_only_disturbs_the_chunks_it_lands_between() {
    let content = content(50_000);
    let chunker = Cdc::new(64, 256, 1024);

    let before: Vec<&[u8]> = chunker
        .split(&content)
        .iter()
        .map(|range| &content[range.clone()])
        .collect();

    let mut edited = content.clone();
    edited.insert(25_000, 0xAB);
    let after: Vec<&[u8]> = chunker
        .split(&edited)
        .iter()
        .map(|range| &edited[range.clone()])
        .collect();

    let kept = before.iter().filter(|chunk| after.contains(chunk)).count();

    assert!(
        kept + 2 >= before.len(),
        "{kept} of {} chunks kept",
        before.len()
    );
}

#[test]
fn a_text_chunker_cuts_at_the_ends_of_lines() {
    let content = lines(0, 2000);
    let ranges = Text::new(64, 256, 1024).split(&content);

    assert!(covers(&ranges, content.len()));
    for range in &ranges {
        if range.end < content.len() {
            assert_eq!(content[range.end - 1], b'\n', "{range:?}");
        }
        assert!(range.len() >= 64, "{range:?}");
        assert!(range.len() <= 1024 + 32, "{range:?}");
    }
}

#[test]
fn a_line_an_edit_did_not_touch_is_the_same_chunk() {
    let before = lines(0, 2000);

    let mut after = lines(0, 1000);
    after.extend_from_slice(b"a line that was added\n");
    after.extend_from_slice(&lines(1000, 2000));

    let chunks = |content: &[u8]| -> Vec<Vec<u8>> {
        Text::new(64, 256, 1024)
            .split(content)
            .iter()
            .map(|range| content[range.clone()].to_vec())
            .collect()
    };
    let before = chunks(&before);
    let after = chunks(&after);

    let shared = before.iter().filter(|chunk| after.contains(chunk)).count();

    assert!(shared + 2 >= before.len(), "{shared} of {}", before.len());
}

#[test]
fn every_chunking_cut_covers_the_content() {
    let content = b"the same bytes, cut four ways";

    for chunking in [
        Chunking::Whole,
        Chunking::Fixed { size: 5 },
        Chunking::Cdc {
            min: 4,
            average: 8,
            max: 16,
        },
        Chunking::Text {
            min: 4,
            average: 8,
            max: 16,
        },
        Chunking::Zip,
    ] {
        assert!(
            covers(&chunking.split(content), content.len()),
            "{chunking:?}"
        );
    }
}

#[test]
fn an_empty_content_is_cut_into_nothing() {
    assert!(Chunking::Fixed { size: 4 }.split(b"").is_empty());
    assert!(Chunking::Cdc {
        min: 4,
        average: 8,
        max: 16,
    }
    .split(b"")
    .is_empty());
}

/// Content with repetition in it, since compressing what cannot be compressed says nothing.
fn repeated() -> Vec<u8> {
    "the same words over and over, ".repeat(64).into_bytes()
}

#[test]
fn every_codec_gives_back_what_it_was_given() {
    let content = repeated();

    for codec in [Codec::Raw, Codec::Lz4, Codec::Zstd] {
        let encoded = codec.encode(&content).unwrap();
        let decoded = codec.decode(&encoded, content.len()).unwrap();

        assert_eq!(decoded, content, "{codec:?}");
    }
}

#[test]
fn an_empty_content_goes_through_every_codec() {
    for codec in [Codec::Raw, Codec::Lz4, Codec::Zstd] {
        let encoded = codec.encode(b"").unwrap();

        assert_eq!(codec.decode(&encoded, 0).unwrap(), b"", "{codec:?}");
    }
}

#[test]
fn compressing_makes_repetition_smaller() {
    let content = repeated();

    for codec in [Codec::Lz4, Codec::Zstd] {
        let encoded = codec.encode(&content).unwrap();

        assert!(
            encoded.len() < content.len(),
            "{codec:?} kept {} of {}",
            encoded.len(),
            content.len()
        );
    }
}

#[test]
fn a_number_and_a_codec_agree() {
    for codec in [Codec::Raw, Codec::Lz4, Codec::Zstd] {
        assert_eq!(Codec::from_id(codec.id()), Some(codec));
    }

    assert_eq!(Codec::from_id(200), None);
}

#[test]
fn what_will_not_decode_is_not_handed_on() {
    let content = repeated();
    let encoded = Codec::Lz4.encode(&content).unwrap();

    assert!(matches!(
        Codec::Lz4.decode(&encoded, content.len() - 1),
        Err(Error::Malformed)
    ));
    assert!(matches!(
        Codec::Raw.decode(&encoded, content.len() + 1),
        Err(Error::Malformed)
    ));
    assert!(matches!(
        Codec::Lz4.decode(b"not an lz4 block", content.len()),
        Err(Error::Malformed)
    ));
    assert!(matches!(
        Codec::Zstd.decode(b"not a zstd frame", content.len()),
        Err(Error::Malformed)
    ));
}

#[test]
fn a_size_the_configuration_writes_is_the_one_it_means() {
    assert_eq!(
        StorageConfig::new(Some("2GiB".to_string())).max_pack_size(),
        2 * 1024 * 1024 * 1024
    );
    assert_eq!(
        StorageConfig::new(Some("64MiB".to_string())).max_pack_size(),
        64 * 1024 * 1024
    );
    assert_eq!(
        StorageConfig::new(Some(" 1MB ".to_string())).max_pack_size(),
        1_000_000
    );
}

#[test]
fn a_configuration_that_says_nothing_is_defaulted() {
    for written in [None, Some("a great many"), Some("0B")] {
        assert_eq!(
            StorageConfig::new(written.map(str::to_string)).max_pack_size(),
            DEFAULT_MAX_PACK_SIZE,
            "{written:?}"
        );
    }
}

fn key(seed: u8) -> Key {
    Key::new([seed; 32])
}

#[test]
fn an_index_comes_back_as_it_went_in() {
    let index = PackIndex::new(vec![
        PackEntry::new(key(1), 0, 40),
        PackEntry::new(key(2), 40, 80),
    ]);

    assert_eq!(PackIndex::decode(&index.encode()).unwrap(), index);
}

#[test]
fn an_entry_is_found_by_its_key() {
    let index = PackIndex::new(vec![
        PackEntry::new(key(1), 0, 40),
        PackEntry::new(key(2), 40, 80),
    ]);

    assert_eq!(index.find(&key(2)).map(PackEntry::offset), Some(40));
    assert_eq!(index.find(&key(9)), None);
}

#[test]
fn what_does_not_read_as_an_index_is_refused() {
    let index = PackIndex::new(vec![PackEntry::new(key(1), 0, 40)]);
    let mut bytes = index.encode();

    assert!(PackIndex::decode(b"not an index").is_err());

    bytes.truncate(bytes.len() - 1);
    assert!(PackIndex::decode(&bytes).is_err());

    let mut extra = index.encode();
    extra.push(0);
    assert!(PackIndex::decode(&extra).is_err());
}

#[test]
fn an_index_puts_its_entries_in_key_order_however_they_arrive() {
    let built = PackIndex::new(vec![
        PackEntry::new(key(2), 40, 80),
        PackEntry::new(key(1), 0, 40),
    ]);
    assert_eq!(built.find(&key(1)).map(PackEntry::offset), Some(0));
    assert_eq!(built.find(&key(2)).map(PackEntry::offset), Some(40));

    let mut pushed = PackIndex::default();
    pushed.push(PackEntry::new(key(2), 40, 80));
    pushed.push(PackEntry::new(key(1), 0, 40));
    assert_eq!(pushed.find(&key(1)).map(PackEntry::offset), Some(0));
    assert_eq!(pushed.find(&key(2)).map(PackEntry::offset), Some(40));
}

#[test]
fn an_index_not_in_key_order_is_refused() {
    let mut out_of_order = Vec::new();
    out_of_order.extend_from_slice(b"RLPI");
    out_of_order.push(PACK_INDEX_VERSION);
    out_of_order.extend_from_slice(&2_u64.to_be_bytes());
    for entry in [
        PackEntry::new(key(2), 0, 40),
        PackEntry::new(key(1), 40, 80),
    ] {
        out_of_order.extend_from_slice(entry.key().digest());
        out_of_order.extend_from_slice(&entry.offset().to_be_bytes());
        out_of_order.extend_from_slice(&entry.len().to_be_bytes());
    }

    assert!(matches!(
        PackIndex::decode(&out_of_order),
        Err(Error::Malformed)
    ));

    let repeated = PackIndex::new(vec![
        PackEntry::new(key(1), 0, 40),
        PackEntry::new(key(1), 40, 80),
    ])
    .encode();
    assert!(matches!(PackIndex::decode(&repeated), Err(Error::Malformed)));
}

#[test]
fn an_index_without_a_key_keeps_the_others_in_order() {
    let index = PackIndex::new(vec![
        PackEntry::new(key(3), 80, 10),
        PackEntry::new(key(1), 0, 40),
        PackEntry::new(key(2), 40, 40),
    ]);
    let kept = index.without(&key(2));

    assert_eq!(kept.len(), 2);
    assert_eq!(kept.find(&key(2)), None);
    assert_eq!(kept.entries()[0].key(), key(1));
    assert_eq!(kept.entries()[1].key(), key(3));
}

#[test]
fn a_key_list_that_does_not_read_is_refused() {
    assert!(matches!(
        keys_from_bytes(&1_u64.to_be_bytes()),
        Err(Wire::Malformed)
    ));
    assert!(matches!(
        keys_from_bytes(b"too short by far"),
        Err(Wire::Malformed)
    ));
}

#[test]
fn a_key_list_reads_back_as_it_was_written() {
    let keys = vec![key(4), key(1), key(9)];
    let bytes = keys_to_bytes(&keys);

    assert_eq!(bytes.len(), 8 + 3 * 32);
    assert_eq!(keys_from_bytes(&bytes).unwrap(), keys);
}

/// A packed container of `members`, stored rather than deflated and stamped with `stamp`.
fn packed_at(members: &[(&str, &[u8])], stamp: u16) -> Vec<u8> {
    let mut local = Vec::new();
    let mut directory = Vec::new();

    for (name, data) in members {
        let name = name.as_bytes();
        let size = u32::try_from(data.len()).unwrap();
        let length = u16::try_from(name.len()).unwrap();
        let offset = u32::try_from(local.len()).unwrap();

        let mut header = Vec::new();
        header.extend_from_slice(b"PK\x03\x04");
        header.extend_from_slice(&[20, 0]);
        header.extend_from_slice(&[0, 0]);
        header.extend_from_slice(&[0, 0]);
        header.extend_from_slice(&stamp.to_le_bytes());
        header.extend_from_slice(&[0, 0]);
        header.extend_from_slice(&[0, 0, 0, 0]);
        header.extend_from_slice(&size.to_le_bytes());
        header.extend_from_slice(&size.to_le_bytes());
        header.extend_from_slice(&length.to_le_bytes());
        header.extend_from_slice(&[0, 0]);
        header.extend_from_slice(name);
        assert_eq!(header.len(), LOCAL_HEADER + name.len());

        local.extend_from_slice(&header);
        local.extend_from_slice(data);

        let mut record = Vec::new();
        record.extend_from_slice(&[0x50, 0x4b, 0x01, 0x02]);
        record.extend_from_slice(&[20, 0]);
        record.extend_from_slice(&[20, 0]);
        record.extend_from_slice(&[0, 0]);
        record.extend_from_slice(&[0, 0]);
        record.extend_from_slice(&stamp.to_le_bytes());
        record.extend_from_slice(&[0, 0]);
        record.extend_from_slice(&[0, 0, 0, 0]);
        record.extend_from_slice(&size.to_le_bytes());
        record.extend_from_slice(&size.to_le_bytes());
        record.extend_from_slice(&length.to_le_bytes());
        record.extend_from_slice(&[0, 0]);
        record.extend_from_slice(&[0, 0]);
        record.extend_from_slice(&[0, 0]);
        record.extend_from_slice(&[0, 0]);
        record.extend_from_slice(&[0, 0, 0, 0]);
        record.extend_from_slice(&offset.to_le_bytes());
        record.extend_from_slice(name);
        assert_eq!(record.len(), CENTRAL_HEADER + name.len());

        directory.extend_from_slice(&record);
    }

    let mut end = Vec::new();
    end.extend_from_slice(b"PK\x05\x06");
    end.extend_from_slice(&[0, 0]);
    end.extend_from_slice(&[0, 0]);
    end.extend_from_slice(&u16::try_from(members.len()).unwrap().to_le_bytes());
    end.extend_from_slice(&u16::try_from(members.len()).unwrap().to_le_bytes());
    end.extend_from_slice(&u32::try_from(directory.len()).unwrap().to_le_bytes());
    end.extend_from_slice(&u32::try_from(local.len()).unwrap().to_le_bytes());
    end.extend_from_slice(&[0, 0]);
    assert_eq!(end.len(), END_RECORD);

    let mut content = local;
    content.extend_from_slice(&directory);
    content.extend_from_slice(&end);

    content
}

/// A packed container whose members were written at time zero.
fn packed(members: &[(&str, &[u8])]) -> Vec<u8> {
    packed_at(members, 0)
}

/// A packed container's chunks, as whole values.
fn chunks(archive: &[u8]) -> Vec<Vec<u8>> {
    Zip.split(archive)
        .iter()
        .map(|range| archive[range.clone()].to_vec())
        .collect()
}

#[test]
fn a_container_is_cut_at_the_boundaries_of_what_it_packs() {
    let archive = packed(&[("one", b"the first member"), ("two", b"the second member")]);
    let ranges = Zip.split(&archive);

    assert!(covers(&ranges, archive.len()));
    assert_eq!(ranges.len(), 5, "{ranges:?}");

    let header = ranges[0].end;
    assert_eq!(header, LOCAL_HEADER + 3);
    assert_eq!(&archive[ranges[1].clone()], b"the first member");
}

#[test]
fn a_member_an_edit_did_not_touch_is_the_same_chunk() {
    let before = packed(&[("one", b"the first member"), ("two", b"the second member")]);
    let after = packed(&[("one", b"the first member"), ("two", b"the SECOND member")]);

    let before = chunks(&before);
    let after = chunks(&after);

    assert_eq!(before[1], after[1]);
    assert_ne!(before[3], after[3]);
}

#[test]
fn a_member_is_the_same_chunk_after_a_save_that_moved_its_time() {
    let before = packed_at(
        &[("one", b"the first member"), ("two", b"the second member")],
        0x0000,
    );
    let after = packed_at(
        &[("one", b"the first member"), ("two", b"the second member")],
        0x1234,
    );

    let shared = chunks(&before)
        .into_iter()
        .filter(|chunk| chunks(&after).contains(chunk))
        .count();

    assert_eq!(shared, 2, "{shared} chunks are shared");
}

#[test]
fn what_does_not_read_as_a_container_is_one_chunk() {
    let archive = packed(&[("one", b"the first member")]);
    let without_end = &archive[..archive.len() - END_RECORD];

    for content in [
        b"not a container at all".as_slice(),
        b"PK\x03\x04 and then nothing that follows",
        &archive[..archive.len() / 2],
        without_end,
        b"",
    ] {
        let ranges = Zip.split(content);

        assert_eq!(ranges.len(), 1, "{ranges:?}");
        assert!(covers(&ranges, content.len()));
    }
}

#[test]
fn every_cut_comes_to_the_whole_of_what_it_was_given() {
    let archive = packed(&[
        ("one", b"the first member"),
        ("two", b"the second member"),
        ("three", &[7_u8; 300]),
    ]);
    let ranges = Zip.split(&archive);

    let put_back: Vec<u8> = ranges
        .iter()
        .flat_map(|range| &archive[range.clone()])
        .copied()
        .collect();

    assert_eq!(put_back, archive);
}

#[test]
fn keys_kept_as_a_set_are_each_there_once_in_key_order() {
    let sorted = rorolala::storage::keyset::sorted_keys(&[key(3), key(1), key(3), key(2)]);
    assert_eq!(sorted, [key(1), key(2), key(3)]);
    assert!(rorolala::storage::keyset::sorted_keys(&[]).is_empty());
}

#[test]
fn a_lock_already_taken_is_refused() {
    let taken = LockError::refusal(IoError::new(IoErrorKind::AlreadyExists, "exists".to_string()));
    assert!(matches!(taken, LockError::Locked));
    assert_eq!(taken.to_string(), "a lock on it is already there");
    assert!(!taken.has_source());

    let failed = LockError::refusal(IoError::new(IoErrorKind::NotFound, "no directory".to_string()));
    assert!(matches!(failed, LockError::Io(_)));
    assert_eq!(
        failed.to_string(),
        "the lock file could not be made: no directory"
    );
    assert!(failed.has_source());
}

#[test]
fn an_index_that_decodes_is_written_again_byte_for_byte() {
    let mut bytes = b"RLPI".to_vec();
    bytes.push(PACK_INDEX_VERSION);
    bytes.extend_from_slice(&2u64.to_be_bytes());
    for (seed, offset, len) in [(1u8, 0u64, 40u64), (7, 40, 9)] {
        bytes.extend_from_slice(&[seed; 32]);
        bytes.extend_from_slice(&offset.to_be_bytes());
        bytes.extend_from_slice(&len.to_be_bytes());
    }

    let index = PackIndex::decode(&bytes).expect("a well-formed index decodes");
    assert_eq!(index.encode(), bytes);
    assert_eq!(index.entries(), &[PackEntry::new(key(1), 0, 40), PackEntry::new(key(7), 40, 9)][..]);
}

use std::path::PathBuf;

use rorolala::auth::channel::{
    message_header, message_length, nonce, open_once, ratchet, read_fields, seal_once,
    write_fields, MAX_HANDSHAKE, SUITE,
};
use rorolala::auth::error::Error as AuthError;
use rorolala::decimal::{decimal_text, read_number};
use rorolala::storage::chunk::Chunking;
use rorolala::storage::codec::Codec;
use rorolala::storage::config::{limit_from, StorageConfig, DEFAULT_MAX_PACK_SIZE};
use rorolala::storage::presence::Presence;
use rorolala::storage::store::{is_text, starts_a_container, RorolalaStorage};
use rorolala::storage::transfer::{
    follows_frame, frame_header, frame_length, plan_moves, presence_from_frame, read_follows,
    rorolala_magic, speaks_protocol, Move, Wire,
};
use rorolala::text::{hex_of_byte, hex_of_bytes, hex_value_of};

#[test]
fn the_password_is_this_kinds_and_no_other() {
    assert_eq!(&rorolala_magic(), b"ROLASTOR");
    assert!(speaks_protocol(b"ROLASTOR"));
    assert!(!speaks_protocol(b"ROLASTOX"));
}

#[test]
fn a_frame_length_reads_back() {
    let header = frame_header(300).unwrap();
    assert_eq!(header, 300u64.to_be_bytes());
    assert_eq!(frame_length(&header.try_into().unwrap()).unwrap(), 300);
    // More than a frame carries is refused both ways.
    assert!(matches!(frame_header((1 << 30) + 1), Err(Wire::TooLarge)));
    assert!(matches!(frame_length(&((1u64 << 30) + 1).to_be_bytes()), Err(Wire::TooLarge)));
}

#[test]
fn a_sender_says_whether_the_content_follows() {
    assert_eq!(follows_frame(true), [1]);
    assert_eq!(follows_frame(false), [0]);
    assert!(read_follows(&follows_frame(true)).unwrap());
    assert!(!read_follows(&follows_frame(false)).unwrap());
    assert!(matches!(read_follows(&[]), Err(Wire::Malformed)));
}

#[test]
fn each_key_crosses_toward_the_end_that_lacks_it() {
    let mine = Presence::new(vec![1, 0, 1, 0]);
    let theirs = Presence::new(vec![1, 1, 0, 0]);

    assert_eq!(
        plan_moves(&mine, &theirs, 4),
        [Move::Stay, Move::Receive, Move::Send, Move::Stay]
    );
    // The other end sees the same moves, the other way round.
    assert_eq!(
        plan_moves(&theirs, &mine, 4),
        [Move::Stay, Move::Send, Move::Receive, Move::Stay]
    );
}

#[test]
fn a_presence_has_to_be_as_long_as_its_batch() {
    let presence = presence_from_frame(vec![1, 0], 2).unwrap();
    assert!(presence.held(0) && !presence.held(1));
    assert!(matches!(presence_from_frame(vec![1], 2), Err(Wire::Malformed)));
}

#[test]
fn a_handshake_message_length_reads_back_within_bounds() {
    let header = message_header(42).unwrap();
    assert_eq!(header, [0, 0, 0, 42]);
    assert_eq!(message_length(&[0, 0, 0, 42]).unwrap(), 42);
    assert!(matches!(message_length(&[0, 0, 0, 0]), Err(AuthError::Handshake)));
    let over = u32::try_from(MAX_HANDSHAKE + 1).unwrap().to_be_bytes();
    assert!(matches!(message_length(&over), Err(AuthError::Handshake)));
}

#[test]
fn handshake_fields_read_back_as_they_were_written() {
    let fields = vec![b"one".to_vec(), Vec::new(), b"three".to_vec()];
    let message = write_fields(&fields).unwrap();

    assert_eq!(message[0], SUITE);
    assert_eq!(read_fields(&message, 3).unwrap(), fields);
    assert!(matches!(read_fields(&message, 4), Err(AuthError::Handshake)));
    assert!(matches!(write_fields(&vec![vec![0; 70_000]]), Err(AuthError::Handshake)));
}

#[test]
fn what_is_sealed_once_opens_under_the_same_key_only() {
    let key = [7; 32];
    let sealed = seal_once(&key, b"proof").unwrap();

    assert_ne!(&sealed[..], b"proof");
    assert_eq!(open_once(&key, &sealed).unwrap(), b"proof");
    assert!(matches!(open_once(&[8; 32], &sealed), Err(AuthError::BadRecord)));
}

#[test]
fn a_nonce_carries_its_counter_in_the_last_eight_bytes() {
    assert_eq!(nonce(0), [0; 12]);
    assert_eq!(nonce(258), [0, 0, 0, 0, 0, 0, 0, 0, 0, 0, 1, 2]);
}

#[test]
fn a_ratcheted_key_is_another_and_the_same_each_time() {
    let key = [3; 32];
    assert_ne!(ratchet(&key), key);
    assert_eq!(ratchet(&key), ratchet(&key));
    assert_ne!(ratchet(&ratchet(&key)), ratchet(&key));
}

#[test]
fn content_is_written_the_way_its_opening_says() {
    let store = RorolalaStorage::rooted(PathBuf::from("store"))
        .with_codec(Codec::Lz4)
        .with_cut(Chunking::Fixed { size: 64 });

    assert!(starts_a_container(b"PK\x03\x04rest"));
    assert!(!starts_a_container(b"PK"));
    assert!(is_text(b"plain words"));
    assert!(!is_text(b"bin\0ary"));

    let zip = store.choose_for(b"PK\x03\x04", 10);
    assert_eq!((zip.codec(), zip.chunking()), (Codec::Raw, Chunking::Zip));

    let short_text = store.choose_for(b"words", 100);
    assert_eq!((short_text.codec(), short_text.chunking()), (Codec::Zstd, Chunking::Whole));

    let long_text = store.choose_for(b"words", 5000);
    assert_eq!(
        (long_text.codec(), long_text.chunking()),
        (Codec::Zstd, Chunking::Text { min: 1024, average: 4096, max: 16384 })
    );

    let binary = store.choose_for(b"\0\x01", 5000);
    assert_eq!((binary.codec(), binary.chunking()), (Codec::Lz4, Chunking::Fixed { size: 64 }));
}

#[test]
fn a_pack_limit_that_is_not_positive_is_the_default() {
    assert_eq!(limit_from(Some(10)), 10);
    assert_eq!(limit_from(Some(0)), DEFAULT_MAX_PACK_SIZE);
    assert_eq!(limit_from(Some(-5)), DEFAULT_MAX_PACK_SIZE);
    assert_eq!(limit_from(None), DEFAULT_MAX_PACK_SIZE);
    assert_eq!(StorageConfig::new(None).max_pack_size(), DEFAULT_MAX_PACK_SIZE);
}

#[test]
fn numbers_and_bytes_are_written_and_read_as_text() {
    assert_eq!(decimal_text(0), "0");
    assert_eq!(decimal_text(u64::MAX), u64::MAX.to_string());
    assert_eq!(read_number(b"1234"), Some(1234));
    assert_eq!(read_number(b"12a"), None);
    assert_eq!(hex_of_byte(0xAB), "ab");
    assert_eq!(hex_of_bytes(&[0, 15, 255]), "000fff");
    assert_eq!(hex_value_of(b'F'), Some(15));
    assert_eq!(hex_value_of(b'g'), None);
}

#[test]
fn a_size_is_read_without_the_whitespace_around_it() {
    let plain = StorageConfig::new(Some("10 KiB".to_string())).max_pack_size();
    let padded = StorageConfig::new(Some("\u{3000}\t10 KiB \n".to_string())).max_pack_size();

    assert_eq!(plain, 10 * 1024);
    assert_eq!(padded, plain);
}

#[test]
fn choosing_a_codec_or_a_cut_keeps_the_root() {
    let store = RorolalaStorage::rooted(PathBuf::from("somewhere"))
        .with_codec(Codec::Zstd)
        .with_cut(Chunking::Whole);

    assert_eq!(store.root(), &PathBuf::from("somewhere"));
    assert_eq!((store.codec(), store.cut()), (Codec::Zstd, Chunking::Whole));
}

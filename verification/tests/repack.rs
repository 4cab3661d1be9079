use rorolala::storage::codec::Codec;
use rorolala::storage::pack::PackEntry;
use rorolala::storage::repack::{held_in_order, repack_plan};
use rorolala::Key;

fn key(seed: u8) -> Key {
    Key::new([seed; 32])
}

/// Packs holding `groups`, each entry `len` bytes long.
fn packs_of(groups: &[Vec<Key>], len: u64) -> Vec<Vec<PackEntry>> {
    groups
        .iter()
        .map(|group| group.iter().enumerate().map(|(at, key)| PackEntry::new(*key, at as u64 * len, len)).collect())
        .collect()
}

#[test]
fn a_store_laid_out_already_is_left_alone() {
    let packed = packs_of(&[vec![key(1), key(2), key(3)]], 10);

    assert_eq!(repack_plan(&packed, &[], 100), None);
}

#[test]
fn packs_listed_in_another_order_are_still_laid_out() {
    let packed = packs_of(&[vec![key(3), key(4)], vec![key(1), key(2)]], 10);

    assert_eq!(repack_plan(&packed, &[], 20), None);
}

#[test]
fn small_packs_are_merged_into_one() {
    let packed = packs_of(&[vec![key(3)], vec![key(1)], vec![key(2)]], 10);

    assert_eq!(repack_plan(&packed, &[], 100), Some(vec![vec![key(1), key(2), key(3)]]));
}

#[test]
fn anything_loose_is_repacked_with_the_rest() {
    let packed = packs_of(&[vec![key(1), key(3)]], 10);
    let loose = [(key(2), 10)];

    assert_eq!(repack_plan(&packed, &loose, 100), Some(vec![vec![key(1), key(2), key(3)]]));
}

#[test]
fn a_loose_copy_of_a_packed_object_is_taken_once() {
    let packed = packs_of(&[vec![key(1), key(2)]], 10);
    let loose = [(key(2), 10)];

    assert_eq!(repack_plan(&packed, &loose, 100), Some(vec![vec![key(1), key(2)]]));
}

#[test]
fn the_length_a_loose_object_has_is_the_one_planned_with() {
    let packed = packs_of(&[vec![key(1), key(2)]], 10);
    let loose = [(key(1), 95)];

    assert_eq!(repack_plan(&packed, &loose, 100), Some(vec![vec![key(1)], vec![key(2)]]));
    assert_eq!(held_in_order(&packed, &loose), vec![(key(1), 95), (key(2), 10)]);
}

#[test]
fn packs_are_cut_where_the_next_entry_would_go_over() {
    let packed = packs_of(&[vec![key(1), key(2), key(3), key(4), key(5)]], 10);

    assert_eq!(
        repack_plan(&packed, &[], 25),
        Some(vec![vec![key(1), key(2)], vec![key(3), key(4)], vec![key(5)]])
    );
}

#[test]
fn a_repack_laid_out_is_not_repacked_again() {
    let packed = packs_of(&[vec![key(5), key(2)], vec![key(4)]], 10);
    let loose = [(key(1), 10), (key(3), 10)];

    let groups = repack_plan(&packed, &loose, 30).expect("a store with loose objects is repacked");
    assert_eq!(groups, vec![vec![key(1), key(2), key(3)], vec![key(4), key(5)]]);

    let repacked = packs_of(&groups, 10);
    assert_eq!(repack_plan(&repacked, &[], 30), None);
}

#[test]
fn an_empty_store_has_nothing_to_repack() {
    assert_eq!(repack_plan(&[], &[], 100), None);
    assert_eq!(repack_plan(&[vec![]], &[], 100), Some(vec![]));
}

#[test]
fn every_codec_encodes_ordinary_content() {
    let content = b"some ordinary content, some ordinary content".to_vec();

    for codec in [Codec::Raw, Codec::Lz4, Codec::Zstd] {
        let encoded = codec.encode(&content).expect("ordinary content encodes");
        assert_eq!(codec.decode(&encoded, content.len()).expect("and decodes"), content);
    }
}

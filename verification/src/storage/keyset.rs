//! Keys kept as a set: each once, in key order.
use vstd::prelude::*;

use crate::storage::key::{
    digest_lt, lemma_digest_lt_total, lemma_digest_lt_transitive, lemma_key_len, Key,
};

verus! {

/// The digests of `keys`, in their order.
pub open spec fn key_digests(keys: Seq<Key>) -> Seq<Seq<u8>> {
    keys.map_values(|key: Key| key@)
}

/// Whether `digests` are in key order, each coming before the next, so none is there twice.
pub open spec fn in_digest_order(digests: Seq<Seq<u8>>) -> bool {
    forall|i: int, j: int| 0 <= i < j < digests.len() ==> digest_lt(digests[i], digests[j])
}

/// Puts `key` where it belongs among `keys`, which are in key order, unless it is there already.
pub fn insert_key(keys: &mut Vec<Key>, key: Key)
    requires
        in_digest_order(key_digests(old(keys)@)),
    ensures
        in_digest_order(key_digests(final(keys)@)),
        key_digests(final(keys)@).to_set() == key_digests(old(keys)@).to_set().insert(key@),
{
    let ghost before = key_digests(keys@);
    let mut at: usize = 0;
    while at < keys.len() && keys[at].precedes(&key)
        invariant
            at <= keys@.len(),
            before == key_digests(keys@),
            forall|j: int| 0 <= j < at ==> digest_lt(#[trigger] before[j], key@),
        decreases keys.len() - at,
    {
        at = at + 1;
    }
    if at < keys.len() && keys[at].same_as(&key) {
        assert(before.to_set().insert(key@) =~= before.to_set()) by {
            assert(before[at as int] == key@);
        }
        return;
    }
    proof {
        lemma_key_len(key);
        if at < keys@.len() {
            lemma_key_len(keys@[at as int]);
            lemma_digest_lt_total(before[at as int], key@);
        }
    }
    keys.insert(at, key);
    let ghost after = key_digests(keys@);
    assert(after =~= before.insert(at as int, key@));
    assert forall|i: int, j: int| 0 <= i < j < after.len() implies digest_lt(after[i], after[j]) by {
        if j < at {
            assert(after[i] == before[i] && after[j] == before[j]);
        } else if j == at {
            assert(after[i] == before[i]);
        } else if i == at {
            assert(after[j] == before[j - 1]);
            if j - 1 > at {
                lemma_digest_lt_transitive(key@, before[at as int], before[j - 1]);
            }
        } else if i < at {
            assert(after[i] == before[i] && after[j] == before[j - 1]);
        } else {
            assert(after[i] == before[i - 1] && after[j] == before[j - 1]);
        }
    }
    assert(after.to_set() =~= before.to_set().insert(key@)) by {
        assert forall|d: Seq<u8>| after.to_set().contains(d) implies before.to_set().insert(
            key@,
        ).contains(d) by {
            let i = choose|i: int| 0 <= i < after.len() && after[i] == d;
            if i < at {
                assert(before[i] == d);
            } else if i > at {
                assert(before[i - 1] == d);
            }
        }
        assert forall|d: Seq<u8>| before.to_set().insert(key@).contains(d) implies after.to_set().contains(
            d,
        ) by {
            if d == key@ {
                assert(after[at as int] == d);
            } else {
                let i = choose|i: int| 0 <= i < before.len() && before[i] == d;
                if i < at {
                    assert(after[i] == d);
                } else {
                    assert(after[i + 1] == d);
                }
            }
        }
    }
}

/// `keys` as a set: each once, in key order.
pub fn sorted_keys(keys: &[Key]) -> (sorted: Vec<Key>)
    ensures
        in_digest_order(key_digests(sorted@)),
        key_digests(sorted@).to_set() == key_digests(keys@).to_set(),
{
    let mut sorted: Vec<Key> = Vec::new();
    let mut i: usize = 0;
    assert(key_digests(sorted@) =~= Seq::<Seq<u8>>::empty());
    assert(key_digests(keys@.take(0)) =~= Seq::<Seq<u8>>::empty());
    while i < keys.len()
        invariant
            i <= keys@.len(),
            in_digest_order(key_digests(sorted@)),
            key_digests(sorted@).to_set() == key_digests(keys@.take(i as int)).to_set(),
        decreases keys.len() - i,
    {
        insert_key(&mut sorted, keys[i]);
        proof {
            assert(key_digests(keys@.take(i + 1)) =~= key_digests(keys@.take(i as int)).push(
                keys@[i as int]@,
            ));
            key_digests(keys@.take(i as int)).lemma_push_to_set_commute(keys@[i as int]@);
        }
        i = i + 1;
    }
    assert(keys@.take(i as int) =~= keys@);
    sorted
}

} // verus!

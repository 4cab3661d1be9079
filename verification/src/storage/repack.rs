//! Whether a repack has anything to do, and the packs it would lay the store out in.
use vstd::prelude::*;

use crate::storage::key::{
    digest_lt, lemma_digest_lt_irreflexive, lemma_digest_lt_total, lemma_digest_lt_transitive,
    lemma_key_len, Key,
};
use crate::storage::keyset::{in_digest_order, key_digests};
use crate::storage::pack::PackEntry;
use crate::storage::store::{capped, is_pack_cutting, pack_ranges, span_sum};
use crate::storage::zip::chains;
use std::ops::Range;

verus! {

/// The digest and length an entry of a pack holds.
pub open spec fn entry_write(entry: PackEntry) -> (Seq<u8>, u64) {
    (entry@.0, entry@.2)
}

/// What the packs hold, pack after pack and entry after entry: a digest and a length each.
pub open spec fn pack_writes(packed: Seq<Vec<PackEntry>>) -> Seq<(Seq<u8>, u64)>
    decreases packed.len(),
{
    if packed.len() == 0 {
        Seq::empty()
    } else {
        pack_writes(packed.drop_last()) + packed.last()@.map_values(|entry: PackEntry| entry_write(entry))
    }
}

/// What the loose objects hold, in the order they were found: a digest and a length each.
pub open spec fn loose_writes(loose: Seq<(Key, u64)>) -> Seq<(Seq<u8>, u64)> {
    loose.map_values(|object: (Key, u64)| (object.0@, object.1))
}

/// The length each digest was last given in `writes`.
pub open spec fn last_written(writes: Seq<(Seq<u8>, u64)>) -> Map<Seq<u8>, u64>
    decreases writes.len(),
{
    if writes.len() == 0 {
        Map::empty()
    } else {
        last_written(writes.drop_last()).insert(writes.last().0, writes.last().1)
    }
}

/// Everything the store holds, each object once, with the length it is written again at: a
/// loose object stands in for a packed entry of the same key, and a later pack for an earlier one.
pub open spec fn held(packed: Seq<Vec<PackEntry>>, loose: Seq<(Key, u64)>) -> Map<Seq<u8>, u64> {
    last_written(pack_writes(packed) + loose_writes(loose))
}

/// The digests of `order`, in its order.
pub open spec fn order_digests(order: Seq<(Seq<u8>, u64)>) -> Seq<Seq<u8>> {
    order.map_values(|item: (Seq<u8>, u64)| item.0)
}

/// Whether `order` is what `held` holds, in key order: each digest once, with its length.
pub open spec fn is_key_order(order: Seq<(Seq<u8>, u64)>, held: Map<Seq<u8>, u64>) -> bool {
    &&& in_digest_order(order_digests(order))
    &&& order_digests(order).to_set() == held.dom()
    &&& forall|i: int| 0 <= i < order.len() ==> held[(#[trigger] order[i]).0] == order[i].1
}

/// The view of a list of keys with their lengths.
pub open spec fn sized_view(items: Seq<(Key, u64)>) -> Seq<(Seq<u8>, u64)> {
    items.map_values(|item: (Key, u64)| (item.0@, item.1))
}

/// Gives `key` the length `len` among `order`, which is in key order: in place where the key is
/// there already, where it belongs where it is not.
fn record(order: &mut Vec<(Key, u64)>, key: Key, len: u64, Ghost(held): Ghost<Map<Seq<u8>, u64>>)
    requires
        is_key_order(sized_view(old(order)@), held),
    ensures
        is_key_order(sized_view(final(order)@), held.insert(key@, len)),
{
    let ghost before = sized_view(order@);
    let ghost digests = order_digests(before);
    proof {
        lemma_key_len(key);
    }
    let mut at: usize = 0;
    while at < order.len() && order[at].0.precedes(&key)
        invariant
            at <= order@.len(),
            before == sized_view(order@),
            digests == order_digests(before),
            forall|j: int| 0 <= j < at ==> digest_lt(#[trigger] digests[j], key@),
        decreases order.len() - at,
    {
        at = at + 1;
    }
    if at < order.len() && order[at].0.same_as(&key) {
        order.set(at, (key, len));
        let ghost after = sized_view(order@);
        assert(after =~= before.update(at as int, (key@, len)));
        assert(order_digests(after) =~= digests);
        assert(held.dom().insert(key@) =~= held.dom()) by {
            assert(digests.to_set().contains(digests[at as int]));
        }
        assert forall|i: int| 0 <= i < after.len() implies held.insert(key@, len)[(#[trigger] after[i]).0]
            == after[i].1 by {
            if i != at {
                assert(after[i] == before[i]);
                if before[i].0 == key@ {
                    assert(digests[i] == digests[at as int]);
                    if i < at {
                        assert(digest_lt(digests[i], digests[at as int]));
                    } else {
                        assert(digest_lt(digests[at as int], digests[i]));
                    }
                    lemma_digest_lt_irreflexive(key@);
                }
                assert(held[before[i].0] == before[i].1);
            }
        }
        return;
    }
    proof {
        if at < order@.len() {
            lemma_key_len(order@[at as int].0);
            lemma_digest_lt_total(digests[at as int], key@);
        }
    }
    order.insert(at, (key, len));
    let ghost after = sized_view(order@);
    assert(after =~= before.insert(at as int, (key@, len)));
    let ghost after_digests = order_digests(after);
    assert(after_digests =~= digests.insert(at as int, key@));
    assert forall|i: int, j: int| 0 <= i < j < after_digests.len() implies digest_lt(
        after_digests[i],
        after_digests[j],
    ) by {
        if j < at {
            assert(after_digests[i] == digests[i] && after_digests[j] == digests[j]);
        } else if j == at {
            assert(after_digests[i] == digests[i]);
        } else if i == at {
            assert(after_digests[j] == digests[j - 1]);
            if j - 1 > at {
                lemma_digest_lt_transitive(key@, digests[at as int], digests[j - 1]);
            }
        } else if i < at {
            assert(after_digests[i] == digests[i] && after_digests[j] == digests[j - 1]);
        } else {
            assert(after_digests[i] == digests[i - 1] && after_digests[j] == digests[j - 1]);
        }
    }
    assert(after_digests.to_set() =~= held.dom().insert(key@)) by {
        assert forall|d: Seq<u8>| after_digests.to_set().contains(d) implies held.dom().insert(
            key@,
        ).contains(d) by {
            let i = choose|i: int| 0 <= i < after_digests.len() && after_digests[i] == d;
            if i < at {
                assert(digests[i] == d);
                assert(digests.to_set().contains(d));
            } else if i > at {
                assert(digests[i - 1] == d);
                assert(digests.to_set().contains(d));
            }
        }
        assert forall|d: Seq<u8>| held.dom().insert(key@).contains(d) implies after_digests.to_set().contains(
            d,
        ) by {
            if d == key@ {
                assert(after_digests[at as int] == d);
            } else {
                assert(digests.to_set().contains(d));
                let i = choose|i: int| 0 <= i < digests.len() && digests[i] == d;
                if i < at {
                    assert(after_digests[i] == d);
                } else {
                    assert(after_digests[i + 1] == d);
                }
            }
        }
    }
    assert forall|i: int| 0 <= i < after.len() implies held.insert(key@, len)[(#[trigger] after[i]).0]
        == after[i].1 by {
        if i != at {
            let k = if i < at { i } else { i - 1 };
            assert(after[i] == before[k]);
            assert(after_digests[i] != after_digests[at as int]) by {
                if i < at {
                    assert(digest_lt(after_digests[i], after_digests[at as int]));
                } else {
                    assert(digest_lt(after_digests[at as int], after_digests[i]));
                }
                lemma_digest_lt_irreflexive(after_digests[i]);
            }
            assert(held[before[k].0] == before[k].1);
        }
    }
}

/// Adding one write to those before it gives its digest the length it wrote.
proof fn lemma_last_written_push(writes: Seq<(Seq<u8>, u64)>, write: (Seq<u8>, u64))
    ensures
        last_written(writes.push(write)) == last_written(writes).insert(write.0, write.1),
{
    assert(writes.push(write).drop_last() =~= writes);
}

/// The packs up to one more are the packs up to here followed by that one's entries.
proof fn lemma_pack_writes_take(packed: Seq<Vec<PackEntry>>, p: int)
    requires
        0 <= p < packed.len(),
    ensures
        pack_writes(packed.take(p + 1)) == pack_writes(packed.take(p)) + packed[p]@.map_values(
            |entry: PackEntry| entry_write(entry),
        ),
{
    assert(packed.take(p + 1).drop_last() =~= packed.take(p));
}

/// Everything `packed` and `loose` hold, each key once and in key order, with the length it was
/// last given: a later pack's entry over an earlier one's, and a loose object over both.
pub fn held_in_order(packed: &[Vec<PackEntry>], loose: &[(Key, u64)]) -> (order: Vec<(Key, u64)>)
    ensures
        is_key_order(sized_view(order@), held(packed@, loose@)),
{
    let mut order: Vec<(Key, u64)> = Vec::new();
    let ghost mut written: Seq<(Seq<u8>, u64)> = Seq::empty();
    assert(order_digests(sized_view(order@)) =~= Seq::<Seq<u8>>::empty());
    assert(order_digests(sized_view(order@)).to_set() =~= last_written(written).dom());
    assert(packed@.take(0) =~= Seq::<Vec<PackEntry>>::empty());
    let mut p: usize = 0;
    while p < packed.len()
        invariant
            p <= packed@.len(),
            written == pack_writes(packed@.take(p as int)),
            is_key_order(sized_view(order@), last_written(written)),
        decreases packed.len() - p,
    {
        let pack = &packed[p];
        let ghost start = written;
        let mut e: usize = 0;
        assert(pack@.take(0).map_values(|entry: PackEntry| entry_write(entry)) =~= Seq::<(Seq<u8>, u64)>::empty());
        assert(start + Seq::<(Seq<u8>, u64)>::empty() =~= start);
        while e < pack.len()
            invariant
                e <= pack@.len(),
                pack == packed@[p as int],
                written == start + pack@.take(e as int).map_values(|entry: PackEntry| entry_write(entry)),
                is_key_order(sized_view(order@), last_written(written)),
            decreases pack.len() - e,
        {
            let entry = pack[e];
            record(&mut order, entry.key(), entry.len(), Ghost(last_written(written)));
            proof {
                lemma_last_written_push(written, entry_write(entry));
                assert(pack@.take(e + 1).map_values(|entry: PackEntry| entry_write(entry)) =~= pack@.take(
                    e as int,
                ).map_values(|entry: PackEntry| entry_write(entry)).push(entry_write(entry)));
                written = written.push(entry_write(entry));
            }
            e = e + 1;
        }
        proof {
            assert(pack@.take(e as int) =~= pack@);
            lemma_pack_writes_take(packed@, p as int);
        }
        p = p + 1;
    }
    assert(packed@.take(p as int) =~= packed@);
    let ghost packs_done = written;
    let mut l: usize = 0;
    assert(packs_done + loose_writes(loose@.take(0)) =~= packs_done);
    while l < loose.len()
        invariant
            l <= loose@.len(),
            packs_done == pack_writes(packed@),
            written == packs_done + loose_writes(loose@.take(l as int)),
            is_key_order(sized_view(order@), last_written(written)),
        decreases loose.len() - l,
    {
        let (key, len) = loose[l];
        record(&mut order, key, len, Ghost(last_written(written)));
        proof {
            lemma_last_written_push(written, (key@, len));
            assert(loose_writes(loose@.take(l + 1)) =~= loose_writes(loose@.take(l as int)).push((key@, len)));
            written = written.push((key@, len));
        }
        l = l + 1;
    }
    assert(loose@.take(l as int) =~= loose@);
    order
}

/// Two lists of digests in key order that hold the same digests are the same list.
pub proof fn lemma_digest_order_unique(a: Seq<Seq<u8>>, b: Seq<Seq<u8>>)
    requires
        in_digest_order(a),
        in_digest_order(b),
        a.to_set() == b.to_set(),
    ensures
        a == b,
    decreases a.len(),
{
    if a.len() == 0 {
        if b.len() > 0 {
            assert(b.to_set().contains(b[0]));
        }
        assert(a =~= b);
    } else {
        assert(a.to_set().contains(a[0]));
        assert(b.len() > 0);
        assert(b.to_set().contains(b[0]));
        let j = choose|j: int| 0 <= j < b.len() && b[j] == a[0];
        let i = choose|i: int| 0 <= i < a.len() && a[i] == b[0];
        if a[0] != b[0] {
            assert(i > 0 && j > 0);
            assert(digest_lt(b[0], b[j]));
            assert(digest_lt(a[0], a[i]));
            lemma_digest_lt_transitive(a[0], b[0], a[0]);
            lemma_digest_lt_irreflexive(a[0]);
        }
        let rest_a = a.drop_first();
        let rest_b = b.drop_first();
        assert forall|x: int, y: int| 0 <= x < y < rest_a.len() implies digest_lt(rest_a[x], rest_a[y]) by {
            assert(digest_lt(a[x + 1], a[y + 1]));
        }
        assert forall|x: int, y: int| 0 <= x < y < rest_b.len() implies digest_lt(rest_b[x], rest_b[y]) by {
            assert(digest_lt(b[x + 1], b[y + 1]));
        }
        assert(rest_a.to_set() =~= rest_b.to_set()) by {
            assert forall|d: Seq<u8>| rest_a.to_set().contains(d) implies rest_b.to_set().contains(d) by {
                let x = choose|x: int| 0 <= x < rest_a.len() && rest_a[x] == d;
                assert(digest_lt(a[0], a[x + 1]));
                assert(a.to_set().contains(d));
                let y = choose|y: int| 0 <= y < b.len() && b[y] == d;
                if y == 0 {
                    lemma_digest_lt_irreflexive(a[0]);
                }
                assert(rest_b[y - 1] == d);
            }
            assert forall|d: Seq<u8>| rest_b.to_set().contains(d) implies rest_a.to_set().contains(d) by {
                let x = choose|x: int| 0 <= x < rest_b.len() && rest_b[x] == d;
                assert(digest_lt(b[0], b[x + 1]));
                assert(b.to_set().contains(d));
                let y = choose|y: int| 0 <= y < a.len() && a[y] == d;
                if y == 0 {
                    lemma_digest_lt_irreflexive(b[0]);
                }
                assert(rest_a[y - 1] == d);
            }
        }
        lemma_digest_order_unique(rest_a, rest_b);
        assert(a =~= b) by {
            assert forall|k: int| 0 <= k < a.len() implies a[k] == b[k] by {
                if k > 0 {
                    assert(rest_a[k - 1] == rest_b[k - 1]);
                }
            }
        }
    }
}

/// What a store holds has one key order and no other.
pub proof fn lemma_key_order_unique(
    first: Seq<(Seq<u8>, u64)>,
    second: Seq<(Seq<u8>, u64)>,
    held: Map<Seq<u8>, u64>,
)
    requires
        is_key_order(first, held),
        is_key_order(second, held),
    ensures
        first == second,
{
    lemma_digest_order_unique(order_digests(first), order_digests(second));
    assert(first.len() == order_digests(first).len() && second.len() == order_digests(second).len());
    assert forall|k: int| 0 <= k < first.len() implies first[k] == second[k] by {
        assert(order_digests(first)[k] == order_digests(second)[k]);
        assert(held[first[k].0] == first[k].1);
        assert(held[second[k].0] == second[k].1);
    }
    assert(first =~= second);
}

/// A run of entries from one start adds up to no less than a shorter run from that start.
proof fn lemma_span_sum_grows(lens: Seq<u64>, a: int, b: int, c: int)
    requires
        a <= b <= c,
    ensures
        span_sum(lens, a, b) <= span_sum(lens, a, c),
    decreases c - b,
{
    if b < c {
        lemma_span_sum_grows(lens, a, b, c - 1);
    }
}

/// Whether `ranges` cut the entries of lengths `lens` from `from` on into packs of at most
/// `max` bytes, the way [`is_pack_cutting`] cuts them from the first.
spec fn cuts_from(lens: Seq<u64>, ranges: Seq<Range<usize>>, from: int, max: u64) -> bool {
    &&& chains(ranges, from, lens.len() as int)
    &&& forall|i: int|
        0 <= i < ranges.len() ==> {
            let r = #[trigger] ranges[i];
            &&& (r.end - r.start == 1 || capped(span_sum(lens, r.start as int, r.end as int)) <= max)
            &&& (r.end < lens.len() ==> capped(span_sum(lens, r.start as int, r.end + 1)) > max)
        }
}

/// No range of a chain ends past where the chain does.
proof fn lemma_chain_ends_within(ranges: Seq<Range<usize>>, from: int, to: int, i: int)
    requires
        chains(ranges, from, to),
        0 <= i < ranges.len(),
    ensures
        ranges[i].end <= to,
    decreases ranges.len() - i,
{
    if i < ranges.len() - 1 {
        lemma_chain_ends_within(ranges, from, to, i + 1);
        assert(ranges[i].end == ranges[i + 1].start);
    }
}

/// There is one way to cut entries into packs from a given start, and no other.
proof fn lemma_cuts_unique(
    lens: Seq<u64>,
    first: Seq<Range<usize>>,
    second: Seq<Range<usize>>,
    from: int,
    max: u64,
)
    requires
        cuts_from(lens, first, from, max),
        cuts_from(lens, second, from, max),
    ensures
        first == second,
    decreases first.len(),
{
    let n = lens.len() as int;
    if first.len() == 0 || second.len() == 0 {
        if first.len() > 0 {
            lemma_chain_ends_within(first, from, n, 0);
        }
        if second.len() > 0 {
            lemma_chain_ends_within(second, from, n, 0);
        }
        assert(first =~= second);
    } else {
        let e1 = first[0].end as int;
        let e2 = second[0].end as int;
        lemma_chain_ends_within(first, from, n, 0);
        lemma_chain_ends_within(second, from, n, 0);
        assert(first[0].start == from && second[0].start == from);
        if e1 < e2 {
            lemma_span_sum_grows(lens, from, e1 + 1, e2);
            assert(false);
        }
        if e2 < e1 {
            lemma_span_sum_grows(lens, from, e2 + 1, e1);
            assert(false);
        }
        assert(first[0] == second[0]);
        let rest1 = first.drop_first();
        let rest2 = second.drop_first();
        assert(cuts_from(lens, rest1, e1, max)) by {
            if rest1.len() > 0 {
                assert(first[0].end == first[1].start);
            }
            assert forall|i: int| 0 <= i < rest1.len() - 1 implies #[trigger] rest1[i].end == rest1[i
                + 1].start by {
                assert(first[i + 1].end == first[i + 2].start);
            }
            assert forall|i: int| 0 <= i < rest1.len() implies (#[trigger] rest1[i]).start < rest1[i].end by {
                assert(first[i + 1].start < first[i + 1].end);
            }
            assert forall|i: int| 0 <= i < rest1.len() implies {
                let r = #[trigger] rest1[i];
                &&& (r.end - r.start == 1 || capped(span_sum(lens, r.start as int, r.end as int)) <= max)
                &&& (r.end < lens.len() ==> capped(span_sum(lens, r.start as int, r.end + 1)) > max)
            } by {
                assert(rest1[i] == first[i + 1]);
            }
        }
        assert(cuts_from(lens, rest2, e1, max)) by {
            if rest2.len() > 0 {
                assert(second[0].end == second[1].start);
            }
            assert forall|i: int| 0 <= i < rest2.len() - 1 implies #[trigger] rest2[i].end == rest2[i
                + 1].start by {
                assert(second[i + 1].end == second[i + 2].start);
            }
            assert forall|i: int| 0 <= i < rest2.len() implies (#[trigger] rest2[i]).start < rest2[i].end by {
                assert(second[i + 1].start < second[i + 1].end);
            }
            assert forall|i: int| 0 <= i < rest2.len() implies {
                let r = #[trigger] rest2[i];
                &&& (r.end - r.start == 1 || capped(span_sum(lens, r.start as int, r.end as int)) <= max)
                &&& (r.end < lens.len() ==> capped(span_sum(lens, r.start as int, r.end + 1)) > max)
            } by {
                assert(rest2[i] == second[i + 1]);
            }
        }
        lemma_cuts_unique(lens, rest1, rest2, e1, max);
        assert forall|k: int| 0 <= k < first.len() implies first[k] == second[k] by {
            if k > 0 {
                assert(rest1[k - 1] == rest2[k - 1]);
            }
        }
        assert(first =~= second);
    }
}

/// Entries of given lengths are cut into packs one way, and no other.
pub proof fn lemma_pack_cutting_unique(
    lens: Seq<u64>,
    first: Seq<Range<usize>>,
    second: Seq<Range<usize>>,
    max: u64,
)
    requires
        is_pack_cutting(lens, first, max),
        is_pack_cutting(lens, second, max),
    ensures
        first == second,
{
    lemma_cuts_unique(lens, first, second, 0, max);
}

/// The key order of `held`: there is exactly one (see [`lemma_key_order_unique`]).
pub open spec fn key_order_of(held: Map<Seq<u8>, u64>) -> Seq<(Seq<u8>, u64)> {
    choose|order: Seq<(Seq<u8>, u64)>| is_key_order(order, held)
}

/// How entries of lengths `lens` are cut into packs of at most `max` bytes: there is exactly one
/// way (see [`lemma_pack_cutting_unique`]).
pub open spec fn cutting_of(lens: Seq<u64>, max: u64) -> Seq<Range<usize>> {
    choose|ranges: Seq<Range<usize>>| is_pack_cutting(lens, ranges, max)
}

/// The lengths of `order`, in its order.
pub open spec fn order_lens(order: Seq<(Seq<u8>, u64)>) -> Seq<u64> {
    order.map_values(|item: (Seq<u8>, u64)| item.1)
}

/// The packs a repack lays the store out in, as the digests each one holds: everything held, in
/// key order, cut into packs of at most `max` bytes.
pub open spec fn planned_groups(packed: Seq<Vec<PackEntry>>, loose: Seq<(Key, u64)>, max: u64) -> Seq<
    Seq<Seq<u8>>,
> {
    let order = key_order_of(held(packed, loose));
    cutting_of(order_lens(order), max).map_values(
        |r: Range<usize>| order_digests(order.subrange(r.start as int, r.end as int)),
    )
}

/// The packs there are, as the digests each one holds.
pub open spec fn current_groups(packed: Seq<Vec<PackEntry>>) -> Seq<Seq<Seq<u8>>> {
    packed.map_values(|pack: Vec<PackEntry>| pack@.map_values(|entry: PackEntry| entry@.0))
}

/// Groups of keys, as the digests each one holds.
pub open spec fn group_digests(groups: Seq<Vec<Key>>) -> Seq<Seq<Seq<u8>>> {
    groups.map_values(|group: Vec<Key>| key_digests(group@))
}

/// Whether `a` and `b` name the same keys in the same order.
fn same_keys(a: &Vec<Key>, b: &Vec<Key>) -> (same: bool)
    ensures
        same == (key_digests(a@) == key_digests(b@)),
{
    if a.len() != b.len() {
        return false;
    }
    let mut i: usize = 0;
    while i < a.len()
        invariant
            i <= a@.len(),
            a@.len() == b@.len(),
            forall|j: int| 0 <= j < i ==> #[trigger] key_digests(a@)[j] == key_digests(b@)[j],
        decreases a.len() - i,
    {
        if !a[i].same_as(&b[i]) {
            assert(key_digests(a@)[i as int] != key_digests(b@)[i as int]);
            return false;
        }
        i = i + 1;
    }
    assert(key_digests(a@) =~= key_digests(b@));
    true
}

/// Whether `planned` and `current` are the same groups, each as many times, whatever their order.
fn same_groups(planned: &Vec<Vec<Key>>, current: Vec<Vec<Key>>) -> (same: bool)
    ensures
        same == (group_digests(planned@).to_multiset() == group_digests(current@).to_multiset()),
{
    broadcast use vstd::seq_lib::group_to_multiset_ensures, vstd::multiset::group_multiset_axioms;

    let ghost whole = group_digests(current@).to_multiset();
    let mut remaining = current;
    let mut i: usize = 0;
    assert(group_digests(planned@.take(0)) =~= Seq::<Seq<Seq<u8>>>::empty());
    assert(group_digests(planned@.take(0)).to_multiset().add(group_digests(remaining@).to_multiset()) =~= whole);
    while i < planned.len()
        invariant
            i <= planned@.len(),
            whole == group_digests(current@).to_multiset(),
            group_digests(planned@.take(i as int)).to_multiset().add(
                group_digests(remaining@).to_multiset(),
            ) == whole,
        decreases planned.len() - i,
    {
        let ghost done = group_digests(planned@.take(i as int));
        let ghost g = key_digests(planned@[i as int]@);
        assert(group_digests(planned@.take(i + 1)) =~= done.push(g));
        let mut j: usize = 0;
        while j < remaining.len() && !same_keys(&planned[i], &remaining[j])
            invariant
                j <= remaining@.len(),
                i < planned@.len(),
                g == key_digests(planned@[i as int]@),
                forall|k: int| 0 <= k < j ==> #[trigger] group_digests(remaining@)[k] != g,
            decreases remaining.len() - j,
        {
            j = j + 1;
        }
        if j == remaining.len() {
            proof {
                let rest = group_digests(remaining@);
                assert(!rest.contains(g));
                rest.to_multiset_ensures();
                assert(rest.to_multiset().count(g) == 0);
                let full = group_digests(planned@);
                assert(full =~= done.push(g) + full.skip(i + 1));
                vstd::seq_lib::lemma_multiset_commutative(done.push(g), full.skip(i + 1));
                done.to_multiset_ensures();
                assert(done.push(g).to_multiset() =~= done.to_multiset().insert(g));
                assert(full.to_multiset() == done.to_multiset().insert(g).add(full.skip(i + 1).to_multiset()));
                assert(full.to_multiset().count(g) >= done.to_multiset().count(g) + 1);
                assert(whole.count(g) == done.to_multiset().count(g));
                assert(full.to_multiset() != whole);
            }
            return false;
        }
        let ghost rest = group_digests(remaining@);
        assert(rest[j as int] == g);
        remaining.remove(j);
        assert(group_digests(remaining@) =~= rest.remove(j as int));
        proof {
            let a = done.to_multiset();
            let b = rest.to_multiset();
            rest.to_multiset_ensures();
            done.to_multiset_ensures();
            assert(rest.contains(g)) by {
                assert(rest[j as int] == g);
            }
            assert(b.count(g) > 0);
            assert(done.push(g).to_multiset() =~= a.insert(g));
            assert(rest.remove(j as int).to_multiset() =~= b.remove(g));
            assert(a.insert(g).add(b.remove(g)) =~= a.add(b));
        }
        i = i + 1;
    }
    assert(planned@.take(i as int) =~= planned@);
    if remaining.len() == 0 {
        assert(group_digests(remaining@) =~= Seq::<Seq<Seq<u8>>>::empty());
        assert(group_digests(planned@).to_multiset() =~= whole);
        true
    } else {
        assert(group_digests(planned@).to_multiset().len() < whole.len());
        false
    }
}

/// The lengths in `order`, in its order.
fn lens_of(order: &Vec<(Key, u64)>) -> (lens: Vec<u64>)
    ensures
        lens@ == order_lens(sized_view(order@)),
{
    let ghost view = sized_view(order@);
    let mut lens: Vec<u64> = Vec::new();
    let mut k: usize = 0;
    while k < order.len()
        invariant
            k <= order@.len(),
            view == sized_view(order@),
            lens@ == order_lens(view).take(k as int),
        decreases order.len() - k,
    {
        lens.push(order[k].1);
        assert(order_lens(view).take(k + 1) =~= order_lens(view).take(k as int).push(view[k as int].1));
        k = k + 1;
    }
    assert(lens@ =~= order_lens(view));
    lens
}

/// The keys of `order` from `start` up to `end`.
fn keys_between(order: &Vec<(Key, u64)>, start: usize, end: usize) -> (group: Vec<Key>)
    requires
        start <= end <= order@.len(),
    ensures
        key_digests(group@) == order_digests(sized_view(order@).subrange(start as int, end as int)),
{
    let ghost view = sized_view(order@);
    let mut group: Vec<Key> = Vec::new();
    let mut at: usize = start;
    assert(order_digests(view.subrange(start as int, start as int)) =~= Seq::<Seq<u8>>::empty());
    assert(key_digests(group@) =~= Seq::<Seq<u8>>::empty());
    while at < end
        invariant
            start <= at <= end <= order@.len(),
            view == sized_view(order@),
            key_digests(group@) == order_digests(view.subrange(start as int, at as int)),
        decreases end - at,
    {
        let ghost before = group@;
        let key = order[at].0;
        group.push(key);
        assert(key_digests(group@) =~= key_digests(before).push(key@));
        assert(view[at as int].0 == key@);
        assert(order_digests(view.subrange(start as int, at + 1)) =~= order_digests(
            view.subrange(start as int, at as int),
        ).push(key@));
        at = at + 1;
    }
    group
}

/// The keys a pack holds, in its order.
fn pack_keys(pack: &Vec<PackEntry>) -> (group: Vec<Key>)
    ensures
        key_digests(group@) == pack@.map_values(|entry: PackEntry| entry@.0),
{
    let mut group: Vec<Key> = Vec::new();
    let mut e: usize = 0;
    assert(key_digests(group@) =~= pack@.take(0).map_values(|entry: PackEntry| entry@.0));
    while e < pack.len()
        invariant
            e <= pack@.len(),
            key_digests(group@) == pack@.take(e as int).map_values(|entry: PackEntry| entry@.0),
        decreases pack.len() - e,
    {
        let ghost before = group@;
        let key = pack[e].key();
        group.push(key);
        assert(key_digests(group@) =~= key_digests(before).push(key@));
        assert(pack@.take(e + 1).map_values(|entry: PackEntry| entry@.0) =~= pack@.take(e as int).map_values(
            |entry: PackEntry| entry@.0,
        ).push(key@));
        e = e + 1;
    }
    assert(pack@.take(e as int) =~= pack@);
    group
}

/// Decides whether a repack has anything to do, and if it has, the packs it lays the store out in.
///
/// `packed` is what each readable pack holds, in the order the packs were listed; `loose` is each
/// loose object with its length. Everything held is taken once, in key order — a loose object in
/// place of a packed entry of the same key, a later pack's entry in place of an earlier one's — and
/// cut into packs of at most `max` bytes. The answer is `None`, nothing to do, exactly when
/// nothing is loose and the packs there are already hold those groups, whatever order they are
/// listed in; otherwise it is the groups of keys, one per pack to write, in the order to write
/// them.
pub fn repack_plan(packed: &[Vec<PackEntry>], loose: &[(Key, u64)], max: u64) -> (plan: Option<
    Vec<Vec<Key>>,
>)
    ensures
        plan is None <==> loose@.len() == 0 && planned_groups(packed@, loose@, max).to_multiset()
            == current_groups(packed@).to_multiset(),
        plan matches Some(groups) ==> group_digests(groups@) == planned_groups(packed@, loose@, max),
{
    let order = held_in_order(packed, loose);
    let ghost view = sized_view(order@);
    let ghost all = held(packed@, loose@);
    proof {
        lemma_key_order_unique(view, key_order_of(all), all);
    }
    let lens = lens_of(&order);
    let ranges = pack_ranges(&lens, max);
    proof {
        lemma_pack_cutting_unique(lens@, ranges@, cutting_of(lens@, max), max);
    }
    let ghost planned_view = planned_groups(packed@, loose@, max);
    assert(planned_view.len() == ranges@.len());
    let mut planned: Vec<Vec<Key>> = Vec::new();
    let mut r: usize = 0;
    while r < ranges.len()
        invariant
            r <= ranges@.len(),
            view == sized_view(order@),
            lens@ == order_lens(view),
            is_pack_cutting(lens@, ranges@, max),
            planned_view.len() == ranges@.len(),
            forall|i: int|
                0 <= i < ranges@.len() ==> #[trigger] planned_view[i] == order_digests(
                    view.subrange(ranges@[i].start as int, ranges@[i].end as int),
                ),
            group_digests(planned@) == planned_view.take(r as int),
        decreases ranges.len() - r,
    {
        proof {
            lemma_chain_ends_within(ranges@, 0, lens@.len() as int, r as int);
        }
        let group = keys_between(&order, ranges[r].start, ranges[r].end);
        let ghost before = planned@;
        planned.push(group);
        assert(planned_view[r as int] == key_digests(group@));
        assert(group_digests(planned@) =~= group_digests(before).push(key_digests(group@)));
        assert(planned_view.take(r + 1) =~= planned_view.take(r as int).push(planned_view[r as int]));
        r = r + 1;
    }
    assert(planned_view.take(r as int) =~= planned_view);
    if loose.len() > 0 {
        return Some(planned);
    }
    let ghost now = current_groups(packed@);
    let mut current: Vec<Vec<Key>> = Vec::new();
    let mut p: usize = 0;
    while p < packed.len()
        invariant
            p <= packed@.len(),
            now == current_groups(packed@),
            group_digests(current@) == now.take(p as int),
        decreases packed.len() - p,
    {
        let group = pack_keys(&packed[p]);
        let ghost before = current@;
        current.push(group);
        assert(group_digests(current@) =~= group_digests(before).push(key_digests(group@)));
        assert(now.take(p + 1) =~= now.take(p as int).push(now[p as int]));
        p = p + 1;
    }
    assert(now.take(p as int) =~= now);
    if same_groups(&planned, current) {
        None
    } else {
        Some(planned)
    }
}

/// A repack settles the store: packs laid out as a repack planned them, holding what was held at
/// the same lengths and nothing loose beside them, are what a repack plans again, so a second
/// repack in a row finds nothing to do.
pub proof fn lemma_repack_settles(
    packed: Seq<Vec<PackEntry>>,
    loose: Seq<(Key, u64)>,
    max: u64,
    repacked: Seq<Vec<PackEntry>>,
)
    requires
        current_groups(repacked) == planned_groups(packed, loose, max),
        held(repacked, Seq::empty()) == held(packed, loose),
    ensures
        planned_groups(repacked, Seq::empty(), max).to_multiset() == current_groups(repacked).to_multiset(),
{
}

} // verus!

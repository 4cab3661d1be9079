//! The directory of a pack: which objects it holds and where each one sits.
use vstd::prelude::*;

use super::error::Error;
use super::key::{
    digest_lt, lemma_digest_lt_irreflexive, lemma_digest_lt_total, lemma_digest_lt_transitive,
    lemma_key_len, Key,
};
use crate::bytes::{be_bytes, be_value, lemma_be_bytes_of_value, lemma_be_value_of_bytes, push_all, push_u64, read_u64};

verus! {

/// The version of the pack index format this build writes.
pub const PACK_INDEX_VERSION: u8 = 2;

/// How long an index header is: the magic, the version, and the count.
pub const PACK_HEADER_LEN: usize = 13;

/// How long one entry record is: the digest, the offset and the length.
pub const PACK_RECORD_LEN: usize = 48;

/// The magic every pack index starts with: `RLPI`.
pub open spec fn pack_index_magic() -> Seq<u8> {
    seq![82u8, 76u8, 80u8, 73u8]
}

/// Where one object sits inside a pack, and how long it is, frame and all.
#[derive(Debug, Clone, Copy, PartialEq, Eq)]
pub struct PackEntry {
    /// The key the object is stored under.
    key: Key,
    /// How many bytes into the pack the entry starts.
    offset: u64,
    /// How many bytes of the pack the entry takes up, frame and all.
    len: u64,
}

impl View for PackEntry {
    /// The digest the object is kept under, where it starts, and how long it is.
    type V = (Seq<u8>, u64, u64);

    closed spec fn view(&self) -> (Seq<u8>, u64, u64) {
        (self.key@, self.offset, self.len)
    }
}

/// Every entry's digest is a digest of the hash's width.
pub proof fn lemma_entry_digest_len(entry: PackEntry)
    ensures
        entry@.0.len() == 32,
{
    lemma_key_len(entry.key);
}

impl PackEntry {
    /// An entry of `len` bytes kept at `offset` in the pack, under `key`.
    pub fn new(key: Key, offset: u64, len: u64) -> (entry: PackEntry)
        ensures
            entry@ == (key@, offset, len),
    {
        PackEntry { key, offset, len }
    }

    /// The key the object is stored under.
    pub fn key(&self) -> (key: Key)
        ensures
            key@ == self@.0,
    {
        self.key
    }

    /// How many bytes into the pack the entry starts.
    pub fn offset(&self) -> (offset: u64)
        ensures
            offset == self@.1,
    {
        self.offset
    }

    /// How many bytes of the pack the entry takes up.
    pub fn len(&self) -> (len: u64)
        ensures
            len == self@.2,
    {
        self.len
    }

    /// Whether the entry holds nothing.
    pub fn is_empty(&self) -> (empty: bool)
        ensures
            empty == (self@.2 == 0),
    {
        self.len == 0
    }
}

/// Whether `entries` are in key order: no entry's key comes before one that precedes it.
pub open spec fn in_key_order(entries: Seq<(Seq<u8>, u64, u64)>) -> bool {
    forall|i: int, j: int| 0 <= i < j < entries.len() ==> !digest_lt(entries[j].0, entries[i].0)
}

/// Whether `entries` are in strict key order: each key comes before every key after it, so no
/// key is named twice.
pub open spec fn in_strict_key_order(entries: Seq<(Seq<u8>, u64, u64)>) -> bool {
    forall|i: int, j: int| 0 <= i < j < entries.len() ==> digest_lt(entries[i].0, entries[j].0)
}

/// The directory of a pack: which objects it holds and where each one sits.
///
/// The entries are kept in key order, which is what a caller looks one up by. The order is not
/// a caller's to get wrong: an index is put into it as it is built, and an index read back out
/// of order is refused, so a lookup by binary search always answers what a walk would.
#[derive(Debug, PartialEq, Eq)]
pub struct PackIndex {
    /// The entries, in key order.
    entries: Vec<PackEntry>,
}

impl View for PackIndex {
    type V = Seq<(Seq<u8>, u64, u64)>;

    closed spec fn view(&self) -> Seq<(Seq<u8>, u64, u64)> {
        self.entries@.map_values(|entry: PackEntry| entry@)
    }
}

/// The records of `entries`, one after another: the digest, the offset and the length.
pub open spec fn entry_records(entries: Seq<(Seq<u8>, u64, u64)>) -> Seq<u8>
    decreases entries.len(),
{
    if entries.len() == 0 {
        Seq::empty()
    } else {
        entry_records(entries.drop_last()) + entries.last().0 + be_bytes(entries.last().1)
            + be_bytes(entries.last().2)
    }
}

/// The bytes an index of `entries` is written as.
pub open spec fn pack_index_bytes(entries: Seq<(Seq<u8>, u64, u64)>) -> Seq<u8> {
    pack_index_magic() + seq![PACK_INDEX_VERSION] + be_bytes(entries.len() as u64) + entry_records(
        entries,
    )
}

/// The entry whose record starts `at` bytes into `records`.
pub open spec fn entry_at(records: Seq<u8>, at: int) -> (Seq<u8>, u64, u64) {
    (
        records.subrange(at, at + 32),
        be_value(records.subrange(at + 32, at + 40)),
        be_value(records.subrange(at + 40, at + 48)),
    )
}

/// The entries `bytes` reads as, if it reads as an index: the magic, this build's version, a
/// count, exactly that many records, and keys in strict order.
pub open spec fn pack_index_of(bytes: Seq<u8>) -> Option<Seq<(Seq<u8>, u64, u64)>> {
    if bytes.len() < 13 || bytes.subrange(0, 4) != pack_index_magic() || bytes[4]
        != PACK_INDEX_VERSION {
        None
    } else {
        let count = be_value(bytes.subrange(5, 13));
        let records = bytes.subrange(13, bytes.len() as int);
        let entries = Seq::new(count as nat, |i: int| entry_at(records, 48 * i));
        if records.len() != count * 48 || !in_strict_key_order(entries) {
            None
        } else {
            Some(entries)
        }
    }
}

/// Records of digests of the hash's width are forty-eight bytes each, each where its position
/// says.
proof fn lemma_entry_records(entries: Seq<(Seq<u8>, u64, u64)>)
    requires
        forall|i: int| 0 <= i < entries.len() ==> (#[trigger] entries[i]).0.len() == 32,
    ensures
        entry_records(entries).len() == 48 * entries.len(),
        forall|i: int|
            0 <= i < entries.len() ==> entry_at(entry_records(entries), 48 * i)
                == #[trigger] entries[i],
    decreases entries.len(),
{
    if entries.len() > 0 {
        let front = entries.drop_last();
        let last = entries.last();
        lemma_entry_records(front);
        lemma_be_value_of_bytes(last.1);
        lemma_be_value_of_bytes(last.2);
        let all = entry_records(entries);
        let before = entry_records(front);
        assert forall|i: int| 0 <= i < entries.len() implies entry_at(all, 48 * i)
            == #[trigger] entries[i] by {
            if i < entries.len() - 1 {
                assert(all.subrange(48 * i, 48 * i + 32) =~= before.subrange(48 * i, 48 * i + 32));
                assert(all.subrange(48 * i + 32, 48 * i + 40) =~= before.subrange(
                    48 * i + 32,
                    48 * i + 40,
                ));
                assert(all.subrange(48 * i + 40, 48 * i + 48) =~= before.subrange(
                    48 * i + 40,
                    48 * i + 48,
                ));
                assert(entries[i] == front[i]);
            } else {
                assert(all.subrange(48 * i, 48 * i + 32) =~= last.0);
                assert(all.subrange(48 * i + 32, 48 * i + 40) =~= be_bytes(last.1));
                assert(all.subrange(48 * i + 40, 48 * i + 48) =~= be_bytes(last.2));
            }
        }
    }
}

/// An index whose keys are all different reads back as the entries it was written from.
pub proof fn lemma_pack_index_round_trip(entries: Seq<(Seq<u8>, u64, u64)>)
    requires
        forall|i: int| 0 <= i < entries.len() ==> (#[trigger] entries[i]).0.len() == 32,
        entries.len() <= u64::MAX,
        in_strict_key_order(entries),
    ensures
        pack_index_of(pack_index_bytes(entries)) == Some(entries),
{
    lemma_entry_records(entries);
    lemma_be_value_of_bytes(entries.len() as u64);
    let bytes = pack_index_bytes(entries);
    assert(bytes.subrange(0, 4) =~= pack_index_magic());
    assert(bytes.subrange(5, 13) =~= be_bytes(entries.len() as u64));
    let records = bytes.subrange(13, bytes.len() as int);
    assert(records =~= entry_records(entries));
    let read = Seq::new(entries.len(), |i: int| entry_at(records, 48 * i));
    assert(read =~= entries);
}

/// Records of a whole number of entries are the records of the entries they read as.
proof fn lemma_records_read_back(records: Seq<u8>, n: nat)
    requires
        records.len() == 48 * n,
    ensures
        entry_records(Seq::new(n, |i: int| entry_at(records, 48 * i))) == records,
    decreases n,
{
    let entries = Seq::new(n, |i: int| entry_at(records, 48 * i));
    if n == 0 {
        assert(records =~= Seq::<u8>::empty());
    } else {
        let m: int = n - 1;
        let front = records.subrange(0, 48 * m);
        lemma_records_read_back(front, m as nat);
        let front_entries = Seq::new(m as nat, |i: int| entry_at(front, 48 * i));
        assert forall|i: int| 0 <= i < m implies #[trigger] entries.drop_last()[i] == front_entries[i] by {
            assert(records.subrange(48 * i, 48 * i + 32) =~= front.subrange(48 * i, 48 * i + 32));
            assert(records.subrange(48 * i + 32, 48 * i + 40) =~= front.subrange(48 * i + 32, 48 * i + 40));
            assert(records.subrange(48 * i + 40, 48 * i + 48) =~= front.subrange(48 * i + 40, 48 * i + 48));
        }
        assert(entries.drop_last() =~= front_entries);
        let last = entries.last();
        assert(last == entry_at(records, 48 * m));
        lemma_be_bytes_of_value(records.subrange(48 * m + 32, 48 * m + 40));
        lemma_be_bytes_of_value(records.subrange(48 * m + 40, 48 * m + 48));
        assert(records =~= front + records.subrange(48 * m, 48 * m + 32) + records.subrange(
            48 * m + 32,
            48 * m + 40,
        ) + records.subrange(48 * m + 40, 48 * m + 48));
    }
}

/// Whatever reads as an index is the index of the entries it reads as, byte for byte: there is
/// one way to write down an index, and `decode` accepts nothing else.
pub proof fn lemma_pack_index_read_is_written(bytes: Seq<u8>)
    requires
        pack_index_of(bytes) is Some,
    ensures
        pack_index_bytes(pack_index_of(bytes)->0) == bytes,
{
    let count = be_value(bytes.subrange(5, 13));
    let records = bytes.subrange(13, bytes.len() as int);
    let entries = pack_index_of(bytes)->0;
    assert(entries == Seq::new(count as nat, |i: int| entry_at(records, 48 * i)));
    lemma_records_read_back(records, count as nat);
    lemma_be_bytes_of_value(bytes.subrange(5, 13));
    assert(bytes =~= bytes.subrange(0, 4) + seq![bytes[4]] + bytes.subrange(5, 13) + records);
}

/// A key that comes before another does not come after it.
proof fn lemma_digest_lt_asymmetric(a: Seq<u8>, b: Seq<u8>)
    requires
        digest_lt(a, b),
    ensures
        !digest_lt(b, a),
{
    if digest_lt(b, a) {
        lemma_digest_lt_transitive(a, b, a);
        lemma_digest_lt_irreflexive(a);
    }
}

impl PackIndex {
    /// The order an index is in: key order.
    #[verifier::type_invariant]
    spec fn ordered(&self) -> bool {
        in_key_order(self@)
    }

    /// An index of nothing.
    pub fn empty() -> (index: PackIndex)
        ensures
            index@ == Seq::<(Seq<u8>, u64, u64)>::empty(),
    {
        let index = PackIndex { entries: Vec::new() };
        assert(index@ =~= Seq::<(Seq<u8>, u64, u64)>::empty());
        index
    }

    /// An index of `entries`, put into key order.
    ///
    /// Whatever order they arrive in, what is handed back holds the same entries, in an order they
    /// can be found in.
    pub fn new(entries: Vec<PackEntry>) -> (index: PackIndex)
        ensures
            index@.to_multiset() == entries@.map_values(|entry: PackEntry| entry@).to_multiset(),
            in_key_order(index@),
    {
        let mut index = PackIndex::empty();
        let ghost given = entries@.map_values(|entry: PackEntry| entry@);
        let mut i: usize = 0;
        assert(index@ =~= given.subrange(0, 0));
        while i < entries.len()
            invariant
                i <= entries@.len(),
                given == entries@.map_values(|entry: PackEntry| entry@),
                index@.to_multiset() == given.subrange(0, i as int).to_multiset(),
            decreases entries.len() - i,
        {
            index.push(entries[i]);
            proof {
                assert(given.subrange(0, i + 1) =~= given.subrange(0, i as int).push(given[i as int]));
                vstd::seq_lib::to_multiset_build(given.subrange(0, i as int), given[i as int]);
            }
            i = i + 1;
        }
        assert(given.subrange(0, i as int) =~= given);
        proof {
            use_type_invariant(&index);
        }
        index
    }

    /// The entries, in key order.
    pub fn entries(&self) -> (entries: &[PackEntry])
        ensures
            entries@.map_values(|entry: PackEntry| entry@) == self@,
            in_key_order(self@),
    {
        proof {
            use_type_invariant(self);
        }
        self.entries.as_slice()
    }

    /// How many objects the pack holds.
    pub fn len(&self) -> (count: usize)
        ensures
            count == self@.len(),
    {
        self.entries.len()
    }

    /// Whether the pack holds nothing.
    pub fn is_empty(&self) -> (empty: bool)
        ensures
            empty == (self@.len() == 0),
    {
        self.entries.len() == 0
    }

    /// How many entries come before `key`: the place it would be put at.
    fn partition_point(&self, key: &Key) -> (at: usize)
        ensures
            at <= self@.len(),
            forall|j: int| 0 <= j < at ==> digest_lt(#[trigger] self@[j].0, key@),
            forall|j: int| at <= j < self@.len() ==> !digest_lt(#[trigger] self@[j].0, key@),
    {
        proof {
            use_type_invariant(self);
        }
        let mut low: usize = 0;
        let mut high: usize = self.entries.len();
        while low < high
            invariant
                low <= high <= self@.len(),
                self@.len() == self.entries@.len(),
                in_key_order(self@),
                forall|j: int| 0 <= j < low ==> digest_lt(#[trigger] self@[j].0, key@),
                forall|j: int| high <= j < self@.len() ==> !digest_lt(#[trigger] self@[j].0, key@),
            decreases high - low,
        {
            let middle = low + (high - low) / 2;
            let held = self.entries[middle].key;
            assert(self@[middle as int].0 == held@);
            if held.precedes(key) {
                proof {
                    assert forall|j: int| 0 <= j < middle + 1 implies digest_lt(
                        #[trigger] self@[j].0,
                        key@,
                    ) by {
                        if j < middle {
                            lemma_entry_digest_len(self.entries@[j]);
                            lemma_entry_digest_len(self.entries@[middle as int]);
                            lemma_digest_lt_total(self@[j].0, self@[middle as int].0);
                            if digest_lt(self@[j].0, self@[middle as int].0) {
                                lemma_digest_lt_transitive(self@[j].0, held@, key@);
                            }
                        }
                    }
                }
                low = middle + 1;
            } else {
                proof {
                    assert forall|j: int| middle <= j < self@.len() implies !digest_lt(
                        #[trigger] self@[j].0,
                        key@,
                    ) by {
                        if j > middle && digest_lt(self@[j].0, key@) {
                            lemma_entry_digest_len(self.entries@[j]);
                            lemma_entry_digest_len(self.entries@[middle as int]);
                            lemma_key_len(*key);
                            lemma_digest_lt_total(held@, key@);
                            if held@ == key@ {
                                assert(digest_lt(self@[j].0, held@));
                            } else {
                                lemma_digest_lt_transitive(self@[j].0, key@, held@);
                            }
                        }
                    }
                }
                high = middle;
            }
        }
        low
    }

    /// Where the object stored under `key` sits, if the pack holds it.
    pub fn find(&self, key: &Key) -> (found: Option<&PackEntry>)
        ensures
            found matches Some(entry) ==> entry@.0 == key@ && self@.contains(entry@),
            found is None ==> forall|j: int| 0 <= j < self@.len() ==> #[trigger] self@[j].0 != key@,
    {
        proof {
            use_type_invariant(self);
        }
        let at = self.partition_point(key);
        if at < self.entries.len() && self.entries[at].key.same_as(key) {
            assert(self@[at as int] == self.entries@[at as int]@);
            return Some(&self.entries[at]);
        }
        proof {
            assert forall|j: int| 0 <= j < self@.len() implies #[trigger] self@[j].0 != key@ by {
                if self@[j].0 == key@ {
                    lemma_digest_lt_irreflexive(key@);
                    assert(j >= at);
                    lemma_entry_digest_len(self.entries@[at as int]);
                    lemma_key_len(*key);
                    lemma_digest_lt_total(self@[at as int].0, key@);
                    assert(j > at);
                    assert(!digest_lt(self@[j].0, self@[at as int].0));
                }
            }
        }
        None
    }

    /// The index with every entry stored under `key` taken out, and the rest as they were, in
    /// the order they were.
    ///
    /// This is what a pack's index becomes when an object is removed from the pack: the bytes
    /// stay where they are, and nothing names them any more.
    pub fn without(&self, key: &Key) -> (kept: PackIndex)
        ensures
            kept@ == self@.filter(|entry: (Seq<u8>, u64, u64)| entry.0 != key@),
    {
        proof {
            use_type_invariant(self);
        }
        let ghost all = self@;
        let ghost keep = |entry: (Seq<u8>, u64, u64)| entry.0 != key@;
        let mut entries: Vec<PackEntry> = Vec::new();
        let mut i: usize = 0;
        while i < self.entries.len()
            invariant
                i <= self.entries@.len(),
                all == self@,
                all.len() == self.entries@.len(),
                in_key_order(all),
                keep == (|entry: (Seq<u8>, u64, u64)| entry.0 != key@),
                entries@.map_values(|e: PackEntry| e@) == all.take(i as int).filter(keep),
            decreases self.entries.len() - i,
        {
            let entry = self.entries[i];
            assert(all[i as int] == entry@);
            let ghost before = entries@.map_values(|e: PackEntry| e@);
            if !entry.key.same_as(key) {
                entries.push(entry);
                assert(entries@.map_values(|e: PackEntry| e@) =~= before.push(entry@));
            }
            proof {
                assert(all.take(i + 1) =~= all.take(i as int).push(all[i as int]));
                all.take(i as int).lemma_filter_push(all[i as int], keep);
            }
            i = i + 1;
        }
        assert(all.take(i as int) =~= all);
        proof {
            let kept = all.filter(keep);
            assert forall|a: int, b: int| 0 <= a < b < kept.len() implies !digest_lt(
                kept[b].0,
                kept[a].0,
            ) by {
                lemma_filter_keeps_order(all, keep, a, b);
            }
        }
        PackIndex { entries }
    }

    /// Adds `entry`, keeping the index in key order: it goes after every entry whose key comes
    /// before its own, and before the rest.
    pub fn push(&mut self, entry: PackEntry)
        ensures
            exists|at: int|
                0 <= at <= old(self)@.len() && final(self)@ == old(self)@.insert(at, entry@) && (
                forall|j: int| 0 <= j < at ==> digest_lt(#[trigger] old(self)@[j].0, entry@.0))
                    && (forall|j: int|
                    at <= j < old(self)@.len() ==> !digest_lt(#[trigger] old(self)@[j].0, entry@.0)),
            final(self)@.to_multiset() == old(self)@.to_multiset().insert(entry@),
    {
        proof {
            use_type_invariant(&*self);
        }
        let at = self.partition_point(&entry.key);
        let ghost before = self@;
        let ghost inserted = before.insert(at as int, entry@);
        proof {
            lemma_entry_digest_len(entry);
            assert forall|i: int, j: int| 0 <= i < j < inserted.len() implies !digest_lt(
                inserted[j].0,
                inserted[i].0,
            ) by {
                if j < at {
                    assert(inserted[i] == before[i] && inserted[j] == before[j]);
                } else if j == at {
                    assert(inserted[i] == before[i]);
                    lemma_digest_lt_asymmetric(before[i].0, entry@.0);
                } else if i == at {
                    assert(inserted[j] == before[j - 1]);
                } else if i < at {
                    assert(inserted[i] == before[i] && inserted[j] == before[j - 1]);
                } else {
                    assert(inserted[i] == before[i - 1] && inserted[j] == before[j - 1]);
                }
            }
            vstd::seq_lib::to_multiset_insert(before, at as int, entry@);
        }
        let mut entries = Vec::new();
        std::mem::swap(&mut entries, &mut self.entries);
        entries.insert(at, entry);
        assert(entries@.map_values(|e: PackEntry| e@) =~= inserted);
        self.entries = entries;
    }

    /// Writes the index down, so it can be read back by `decode`: a header and then one record
    /// per object — the digest, the offset and the length.
    ///
    /// An index that names no key twice reads back as the index that was written.
    pub fn encode(&self) -> (bytes: Vec<u8>)
        ensures
            bytes@ == pack_index_bytes(self@),
            in_strict_key_order(self@) ==> pack_index_of(bytes@) == Some(self@),
    {
        let mut bytes = Vec::new();
        let count = self.entries.len();
        proof {
            assert forall|i: int| 0 <= i < self@.len() implies (#[trigger] self@[i]).0.len()
                == 32 by {
                lemma_entry_digest_len(self.entries@[i]);
            }
            if in_strict_key_order(self@) {
                lemma_pack_index_round_trip(self@);
            }
        }
        bytes.push(82u8);
        bytes.push(76u8);
        bytes.push(80u8);
        bytes.push(73u8);
        bytes.push(PACK_INDEX_VERSION);
        push_u64(&mut bytes, count as u64);
        let mut i: usize = 0;
        while i < self.entries.len()
            invariant
                i <= self.entries@.len(),
                self@.len() == self.entries@.len(),
                bytes@ == pack_index_magic() + seq![PACK_INDEX_VERSION] + be_bytes(
                    self@.len() as u64,
                ) + entry_records(self@.subrange(0, i as int)),
            decreases self.entries.len() - i,
        {
            let entry = self.entries[i];
            assert(self@[i as int] == entry@);
            push_all(&mut bytes, entry.key.digest());
            push_u64(&mut bytes, entry.offset);
            push_u64(&mut bytes, entry.len);
            proof {
                assert(self@.subrange(0, i + 1).drop_last() =~= self@.subrange(0, i as int));
            }
            i = i + 1;
            assert(bytes@ =~= pack_index_magic() + seq![PACK_INDEX_VERSION] + be_bytes(
                self@.len() as u64,
            ) + entry_records(self@.subrange(0, i as int)));
        }
        assert(self@.subrange(0, i as int) =~= self@);
        bytes
    }

    /// Reads an index written by `encode`.
    ///
    /// Returns `Error::Malformed` if `bytes` does not read as an index: the wrong magic, a version
    /// this build does not know, a count or a record that does not fit, entries out of key order
    /// — a key repeated is out of order too — or bytes left over at the end.
    pub fn decode(bytes: &[u8]) -> (index: Result<PackIndex, Error>)
        ensures
            index matches Ok(read) ==> pack_index_of(bytes@) == Some(read@),
            index matches Err(error) ==> error is Malformed && pack_index_of(bytes@) is None,
    {
        if bytes.len() < 13 {
            return Err(Error::Malformed);
        }
        if !(bytes[0] == 82u8 && bytes[1] == 76u8 && bytes[2] == 80u8 && bytes[3] == 73u8) {
            proof {
                if bytes@.subrange(0, 4) == pack_index_magic() {
                    assert(bytes@.subrange(0, 4)[0] == bytes@[0]);
                    assert(bytes@.subrange(0, 4)[1] == bytes@[1]);
                    assert(bytes@.subrange(0, 4)[2] == bytes@[2]);
                    assert(bytes@.subrange(0, 4)[3] == bytes@[3]);
                }
            }
            return Err(Error::Malformed);
        }
        assert(bytes@.subrange(0, 4) =~= pack_index_magic());
        if bytes[4] != PACK_INDEX_VERSION {
            return Err(Error::Malformed);
        }
        let count = read_u64(bytes, 5);
        let ghost records = bytes@.subrange(13, bytes@.len() as int);
        let ghost all = Seq::new(count as nat, |i: int| entry_at(records, 48 * i));
        let rest = (bytes.len() - 13) as u64;
        if rest % 48 != 0 || rest / 48 != count {
            return Err(Error::Malformed);
        }
        let mut entries: Vec<PackEntry> = Vec::new();
        let mut i: usize = 0;
        let total = (rest / 48) as usize;
        let n = bytes.len();
        while i < total
            invariant
                i <= total,
                total == count,
                n == bytes@.len(),
                bytes@.len() == 13 + 48 * count,
                records == bytes@.subrange(13, bytes@.len() as int),
                all == Seq::new(count as nat, |i: int| entry_at(records, 48 * i)),
                entries@.len() == i,
                forall|j: int| 0 <= j < i ==> (#[trigger] entries@[j])@ == all[j],
                in_strict_key_order(all.subrange(0, i as int)),
            decreases total - i,
        {
            assert(48 * (i as int) + 48 <= 48 * (count as int)) by (nonlinear_arith)
                requires
                    i < count,
            ;
            let at = 13 + 48 * i;
            let key = Key::read(bytes, at);
            let offset = read_u64(bytes, at + 32);
            let len = read_u64(bytes, at + 40);
            proof {
                assert(bytes@.subrange(at as int, at + 32) =~= records.subrange(48 * i, 48 * i + 32));
                assert(bytes@.subrange(at + 32, at + 40) =~= records.subrange(
                    48 * i + 32,
                    48 * i + 40,
                ));
                assert(bytes@.subrange(at + 40, at + 48) =~= records.subrange(
                    48 * i + 40,
                    48 * i + 48,
                ));
            }
            if i > 0 {
                let previous = entries[i - 1].key;
                assert(previous@ == all[i - 1].0);
                assert(key@ == all[i as int].0);
                if !previous.precedes(&key) {
                    proof {
                        assert(!in_strict_key_order(all));
                    }
                    return Err(Error::Malformed);
                }
                proof {
                    let prefix = all.subrange(0, i + 1);
                    assert forall|a: int, b: int| #![trigger prefix[a], prefix[b]]
                        0 <= a < b < i + 1 implies digest_lt(prefix[a].0, prefix[b].0) by {
                        if b == i && a < i - 1 {
                            assert(all.subrange(0, i as int)[a] == all[a]);
                            assert(all.subrange(0, i as int)[i - 1] == all[i - 1]);
                            lemma_digest_lt_transitive(all[a].0, all[i - 1].0, all[b].0);
                        } else if b < i {
                            assert(all.subrange(0, i as int)[a] == all[a]);
                            assert(all.subrange(0, i as int)[b] == all[b]);
                        }
                    }
                }
            } else {
                assert(in_strict_key_order(all.subrange(0, 1)));
            }
            entries.push(PackEntry::new(key, offset, len));
            i = i + 1;
        }
        assert(all.subrange(0, total as int) =~= all);
        let ghost view = entries@.map_values(|entry: PackEntry| entry@);
        assert(view =~= all);
        proof {
            assert forall|a: int, b: int| 0 <= a < b < view.len() implies !digest_lt(
                view[b].0,
                view[a].0,
            ) by {
                lemma_digest_lt_asymmetric(view[a].0, view[b].0);
            }
        }
        Ok(PackIndex { entries })
    }
}

impl Clone for PackIndex {
    fn clone(&self) -> (copy: PackIndex)
        ensures
            copy@ == self@,
    {
        proof {
            use_type_invariant(self);
        }
        let mut entries: Vec<PackEntry> = Vec::new();
        let mut i: usize = 0;
        while i < self.entries.len()
            invariant
                i <= self.entries@.len(),
                entries@ == self.entries@.subrange(0, i as int),
            decreases self.entries.len() - i,
        {
            entries.push(self.entries[i]);
            i = i + 1;
            assert(entries@ =~= self.entries@.subrange(0, i as int));
        }
        assert(entries@ =~= self.entries@);
        PackIndex { entries }
    }
}

impl Default for PackIndex {
    fn default() -> (index: PackIndex)
        ensures
            index@ == Seq::<(Seq<u8>, u64, u64)>::empty(),
    {
        PackIndex::empty()
    }
}

/// Two entries a filter keeps are in the order they were in before it.
proof fn lemma_filter_keeps_order(
    all: Seq<(Seq<u8>, u64, u64)>,
    keep: spec_fn((Seq<u8>, u64, u64)) -> bool,
    a: int,
    b: int,
)
    requires
        in_key_order(all),
        0 <= a < b < all.filter(keep).len(),
    ensures
        !digest_lt(all.filter(keep)[b].0, all.filter(keep)[a].0),
    decreases all.len(),
{
    let kept = all.filter(keep);
    let front = all.drop_last();
    assert(all =~= front.push(all.last()));
    front.lemma_filter_push(all.last(), keep);
    assert forall|i: int, j: int| 0 <= i < j < front.len() implies !digest_lt(front[j].0, front[i].0) by {
        assert(front[i] == all[i] && front[j] == all[j]);
    }
    if keep(all.last()) {
        assert(kept == front.filter(keep).push(all.last()));
        if b < kept.len() - 1 {
            lemma_filter_keeps_order(front, keep, a, b);
        } else {
            assert(front.filter(keep).contains(kept[a])) by {
                assert(front.filter(keep)[a] == kept[a]);
            }
            front.lemma_filter_contains_rev(keep, kept[a]);
            let at = choose|i: int| 0 <= i < front.len() && front[i] == kept[a];
            assert(all[at] == kept[a]);
            assert(!digest_lt(all[all.len() - 1].0, all[at].0));
        }
    } else {
        assert(kept == front.filter(keep));
        lemma_filter_keeps_order(front, keep, a, b);
    }
}

} // verus!

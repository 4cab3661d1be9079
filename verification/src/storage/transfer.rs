//! What two stores say to each other to move a batch of objects, and what each end decides from
//! it.
//!
//! The exchange is one round of asking and one of sending. One end brings a list of keys and
//! speaks first; the other is told them. Each says which of them it holds, and each sends the ones
//! the other does not, so one pass leaves both ends holding all of them.
//!
//! ```text
//! initiate                              respond
//!   write MAGIC     ───────────────▶      read MAGIC, refuse if it is not this kind's
//!   read MAGIC      ◀───────────────      write MAGIC
//!   write keys      ───────────────▶      read keys
//!   write presence  ───────────────▶      read presence
//!   read presence   ◀───────────────      write presence
//!   for each key: send what the peer lacks, take what it has and this end lacks
//! ```
//!
//! The stream itself is the caller's; what is here is what crosses it and what each end makes of
//! what arrives.
use vstd::prelude::*;

use super::key::{lemma_key_len, Key};
use super::presence::{held_at, Presence};
use crate::bytes::{be_bytes, be_value, lemma_be_value_of_bytes, push_all, push_u64, read_u64};

verus! {

/// The largest frame either end sends or accepts: one GiB.
pub const MAX_FRAME: usize = 1073741824;

/// How long a protocol's password is.
pub const PROTOCOL_MAGIC_LEN: usize = 8;

/// The password a Rorolala store speaks its protocol with: `ROLASTOR`.
pub open spec fn protocol_magic() -> Seq<u8> {
    seq![82u8, 79u8, 76u8, 65u8, 83u8, 84u8, 79u8, 82u8]
}

/// The password a Rorolala store speaks its protocol with.
pub fn rorolala_magic() -> (magic: [u8; 8])
    ensures
        magic@ == protocol_magic(),
{
    let magic = [82u8, 79u8, 76u8, 65u8, 83u8, 84u8, 79u8, 82u8];
    assert(magic@ =~= protocol_magic());
    magic
}

/// Whether the password a peer gave is this protocol's.
pub fn speaks_protocol(theirs: &[u8; 8]) -> (same: bool)
    ensures
        same == (theirs@ == protocol_magic()),
{
    let same = theirs[0] == 82u8 && theirs[1] == 79u8 && theirs[2] == 76u8 && theirs[3] == 65u8
        && theirs[4] == 83u8 && theirs[5] == 84u8 && theirs[6] == 79u8 && theirs[7] == 82u8;
    proof {
        if same {
            assert(theirs@ =~= protocol_magic());
        } else if theirs@ == protocol_magic() {
            assert(theirs@[0] == 82u8);
        }
    }
    same
}

/// What went wrong on the wire, before the store was asked anything.
#[derive(Debug)]
pub enum Wire {
    /// What the peer sent does not read.
    Malformed,
    /// A frame is too large to cross.
    TooLarge,
    /// The stream itself failed.
    Stream(std::io::Error),
}

/// What driving a transfer failed with.
#[derive(Debug)]
pub enum Error<E> {
    /// The peer does not speak this protocol: its password is not this kind's.
    Mismatched,
    /// What the peer sent does not read.
    Malformed,
    /// A frame is too large to cross.
    TooLarge,
    /// The stream itself failed.
    Stream(std::io::Error),
    /// The store failed.
    Store(E),
}

impl<E> From<Wire> for Error<E> {
    fn from(wire: Wire) -> (error: Error<E>)
        ensures
            wire is Malformed ==> error is Malformed,
            wire is TooLarge ==> error is TooLarge,
            wire is Stream ==> error is Stream,
    {
        match wire {
            Wire::Malformed => Error::Malformed,
            Wire::TooLarge => Error::TooLarge,
            Wire::Stream(source) => Error::Stream(source),
        }
    }
}

impl<E> vstd::std_specs::convert::FromSpecImpl<Wire> for Error<E> {
    open spec fn obeys_from_spec() -> bool {
        true
    }

    open spec fn from_spec(wire: Wire) -> Error<E> {
        match wire {
            Wire::Malformed => Error::Malformed,
            Wire::TooLarge => Error::TooLarge,
            Wire::Stream(source) => Error::Stream(source),
        }
    }
}

/// The eight bytes that go in front of a frame of `len` bytes: its length, most significant
/// byte first.
///
/// A frame longer than [`MAX_FRAME`] does not cross, and is refused as `Wire::TooLarge`.
pub fn frame_header(len: usize) -> (header: Result<Vec<u8>, Wire>)
    ensures
        header matches Ok(bytes) ==> len <= MAX_FRAME && bytes@ == be_bytes(len as u64),
        header matches Err(error) ==> error is TooLarge && len > MAX_FRAME,
        header is Ok <==> len <= MAX_FRAME,
{
    if len > MAX_FRAME {
        return Err(Wire::TooLarge);
    }
    let mut bytes: Vec<u8> = Vec::new();
    push_u64(&mut bytes, len as u64);
    assert(bytes@ =~= be_bytes(len as u64));
    Ok(bytes)
}

/// How long the frame whose header is `header` is.
///
/// A length this machine cannot count is `Wire::Malformed`, and one longer than [`MAX_FRAME`] is
/// `Wire::TooLarge`: nothing is read for a frame that would not have been sent.
pub fn frame_length(header: &[u8; 8]) -> (len: Result<usize, Wire>)
    ensures
        len matches Ok(n) ==> n == be_value(header@) && n <= MAX_FRAME,
        len matches Err(error) ==> (error is Malformed && be_value(header@) > usize::MAX) || (
        error is TooLarge && be_value(header@) <= usize::MAX && be_value(header@) > MAX_FRAME),
        len is Ok <==> be_value(header@) <= MAX_FRAME,
{
    let value = read_u64(header.as_slice(), 0);
    assert(header@.subrange(0, 8) =~= header@);
    if value > usize::MAX as u64 {
        return Err(Wire::Malformed);
    }
    let len = value as usize;
    if len > MAX_FRAME {
        return Err(Wire::TooLarge);
    }
    Ok(len)
}

/// The records of `digests`, one after another.
pub open spec fn digest_records(digests: Seq<Seq<u8>>) -> Seq<u8>
    decreases digests.len(),
{
    if digests.len() == 0 {
        Seq::empty()
    } else {
        digest_records(digests.drop_last()) + digests.last()
    }
}

/// The keys `keys` (their digests) as they cross: a count, and then each digest.
pub open spec fn keys_bytes(keys: Seq<Seq<u8>>) -> Seq<u8> {
    be_bytes(keys.len() as u64) + digest_records(keys)
}

/// The digest at `at` of a run of records.
pub open spec fn record_at(records: Seq<u8>, at: int) -> Seq<u8> {
    records.subrange(32 * at, 32 * at + 32)
}

/// The digests `bytes` carries, if it reads as a key list: a count, and then exactly that many
/// digests.
pub open spec fn keys_of(bytes: Seq<u8>) -> Option<Seq<Seq<u8>>> {
    if bytes.len() < 8 || bytes.len() - 8 != 32 * be_value(bytes.subrange(0, 8)) {
        None
    } else {
        Some(Seq::new(
            be_value(bytes.subrange(0, 8)) as nat,
            |i: int| record_at(bytes.subrange(8, bytes.len() as int), i),
        ))
    }
}

/// The records of digests that are each 32 bytes long are 32 bytes a digest, and each is where
/// it should be.
proof fn lemma_digest_records(digests: Seq<Seq<u8>>)
    requires
        forall|i: int| 0 <= i < digests.len() ==> (#[trigger] digests[i]).len() == 32,
    ensures
        digest_records(digests).len() == 32 * digests.len(),
        forall|i: int| 0 <= i < digests.len() ==> #[trigger] record_at(digest_records(digests), i) == digests[i],
    decreases digests.len(),
{
    if digests.len() > 0 {
        let front = digests.drop_last();
        lemma_digest_records(front);
        let all = digest_records(digests);
        assert forall|i: int| 0 <= i < digests.len() implies #[trigger] record_at(all, i) == digests[i] by {
            if i < digests.len() - 1 {
                assert(record_at(all, i) =~= record_at(digest_records(front), i));
                assert(front[i] == digests[i]);
            } else {
                assert(record_at(all, i) =~= digests.last());
            }
        }
    }
}

/// A key list reads back as the keys it was written from.
pub proof fn lemma_keys_round_trip(keys: Seq<Seq<u8>>)
    requires
        forall|i: int| 0 <= i < keys.len() ==> (#[trigger] keys[i]).len() == 32,
        keys.len() <= u64::MAX,
    ensures
        keys_of(keys_bytes(keys)) == Some(keys),
{
    lemma_digest_records(keys);
    lemma_be_value_of_bytes(keys.len() as u64);
    let bytes = keys_bytes(keys);
    assert(bytes.subrange(0, 8) =~= be_bytes(keys.len() as u64));
    assert(bytes.subrange(8, bytes.len() as int) =~= digest_records(keys));
    assert(keys_of(bytes)->0 =~= keys);
}

/// The keys as they cross: a count, and then each digest.
pub fn keys_to_bytes(keys: &[Key]) -> (bytes: Vec<u8>)
    ensures
        bytes@ == keys_bytes(keys@.map_values(|key: Key| key@)),
{
    let ghost digests = keys@.map_values(|key: Key| key@);
    let mut bytes: Vec<u8> = Vec::new();
    push_u64(&mut bytes, keys.len() as u64);
    let mut i: usize = 0;
    while i < keys.len()
        invariant
            i <= keys@.len(),
            digests == keys@.map_values(|key: Key| key@),
            bytes@ == be_bytes(keys@.len() as u64) + digest_records(digests.take(i as int)),
        decreases keys.len() - i,
    {
        let key = keys[i];
        push_all(&mut bytes, key.digest().as_slice());
        proof {
            assert(digests.take(i + 1).drop_last() =~= digests.take(i as int));
            assert(digests.take(i + 1).last() == key@);
        }
        i = i + 1;
        assert(bytes@ =~= be_bytes(keys@.len() as u64) + digest_records(digests.take(i as int)));
    }
    assert(digests.take(i as int) =~= digests);
    bytes
}

/// Reads a key list as it crossed.
///
/// A count that does not fit the bytes after it, or bytes left over after the last key, is
/// `Wire::Malformed`.
pub fn keys_from_bytes(bytes: &[u8]) -> (keys: Result<Vec<Key>, Wire>)
    ensures
        keys matches Ok(read) ==> keys_of(bytes@) == Some(read@.map_values(|key: Key| key@)),
        keys matches Err(error) ==> error is Malformed && keys_of(bytes@) is None,
{
    let len = bytes.len();
    if len < 8 {
        return Err(Wire::Malformed);
    }
    let count = read_u64(bytes, 0);
    let rest = len - 8;
    if rest % 32 != 0 || (rest / 32) as u64 != count {
        return Err(Wire::Malformed);
    }
    let n = rest / 32;
    let ghost records = bytes@.subrange(8, len as int);
    let mut keys: Vec<Key> = Vec::new();
    let mut i: usize = 0;
    while i < n
        invariant
            len == bytes@.len(),
            len == 8 + 32 * n,
            i <= n,
            records == bytes@.subrange(8, len as int),
            keys@.len() == i,
            forall|k: int| 0 <= k < i ==> (#[trigger] keys@[k])@ == record_at(records, k),
        decreases n - i,
    {
        let key = Key::read(bytes, 8 + 32 * i);
        assert(key@ =~= record_at(records, i as int));
        keys.push(key);
        i = i + 1;
    }
    assert(keys@.map_values(|key: Key| key@) =~= keys_of(bytes@)->0);
    Ok(keys)
}

/// Which way a key crosses, from one end's point of view.
#[derive(Debug, Clone, Copy, PartialEq, Eq, Structural)]
pub enum Move {
    /// This end holds it and the other does not: it is sent.
    Send,
    /// The other end holds it and this one does not: it is taken.
    Receive,
    /// Both hold it, or neither does: nothing crosses.
    Stay,
}

/// Which way a key crosses, where this end does or does not hold it and the other does or does
/// not.
pub open spec fn move_for(mine: bool, theirs: bool) -> Move {
    if mine && !theirs {
        Move::Send
    } else if !mine && theirs {
        Move::Receive
    } else {
        Move::Stay
    }
}

/// The same move, seen from the other end.
pub open spec fn mirrored(step: Move) -> Move {
    match step {
        Move::Send => Move::Receive,
        Move::Receive => Move::Send,
        Move::Stay => Move::Stay,
    }
}

/// Which way each key of a batch of `count` crosses, from the presence this end answered with
/// and the one the other end did.
pub fn plan_moves(mine: &Presence, theirs: &Presence, count: usize) -> (moves: Vec<Move>)
    ensures
        moves@ == Seq::new(count as nat, |at: int| move_for(held_at(mine@, at), held_at(theirs@, at))),
{
    let mut moves: Vec<Move> = Vec::new();
    let mut at: usize = 0;
    while at < count
        invariant
            at <= count,
            moves@ == Seq::new(at as nat, |k: int| move_for(held_at(mine@, k), held_at(theirs@, k))),
        decreases count - at,
    {
        let held = mine.held(at);
        let wanted = theirs.held(at);
        let step = if held && !wanted {
            Move::Send
        } else if !held && wanted {
            Move::Receive
        } else {
            Move::Stay
        };
        moves.push(step);
        at = at + 1;
        assert(moves@ =~= Seq::new(at as nat, |k: int| move_for(held_at(mine@, k), held_at(theirs@, k))));
    }
    moves
}

/// The two ends agree on every key: what one sends the other takes, and where one does nothing
/// so does the other.
pub proof fn lemma_moves_mirror(mine: bool, theirs: bool)
    ensures
        move_for(theirs, mine) == mirrored(move_for(mine, theirs)),
{
}

/// After a pass, an end holds a key exactly where either end held it before: what it lacked and
/// the other held it took, and what it held it kept.
pub proof fn lemma_pass_leaves_both_holding(mine: bool, theirs: bool)
    ensures
        (mine || move_for(mine, theirs) == Move::Receive) == (mine || theirs),
        (theirs || move_for(theirs, mine) == Move::Receive) == (mine || theirs),
{
}

/// The presence the other end answered with, from the frame it came in: as long as the batch, or
/// `Wire::Malformed`.
pub fn presence_from_frame(bytes: Vec<u8>, len: usize) -> (presence: Result<Presence, Wire>)
    ensures
        presence matches Ok(p) ==> p@ == bytes@ && bytes@.len() == len,
        presence matches Err(error) ==> error is Malformed && bytes@.len() != len,
{
    if bytes.len() != len {
        return Err(Wire::Malformed);
    }
    Ok(Presence::new(bytes))
}

/// What the first frame a key's sender writes says: whether the content follows.
pub open spec fn content_follows(frame: Seq<u8>) -> Option<bool> {
    if frame.len() == 0 {
        None
    } else {
        Some(frame[0] != 0u8)
    }
}

/// The frame a sender writes before a key: `[1]` where the content follows, `[0]` where it does
/// not have it after all.
pub fn follows_frame(has: bool) -> (frame: Vec<u8>)
    ensures
        content_follows(frame@) == Some(has),
        frame@.len() == 1,
{
    let mut frame: Vec<u8> = Vec::new();
    frame.push(if has { 1u8 } else { 0u8 });
    frame
}

/// Whether the content follows the frame `frame` a sender wrote before a key; an empty frame is
/// `Wire::Malformed`.
pub fn read_follows(frame: &[u8]) -> (follows: Result<bool, Wire>)
    ensures
        follows matches Ok(f) ==> content_follows(frame@) == Some(f),
        follows matches Err(error) ==> error is Malformed && content_follows(frame@) is None,
{
    if frame.len() == 0 {
        return Err(Wire::Malformed);
    }
    Ok(frame[0] != 0u8)
}

} // verus!

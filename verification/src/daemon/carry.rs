//! Syncing two stores: which keys cross and which way, and how one crosses.
//!
//! Each side says which of the keys asked for it holds, the two answers cross, and then every key
//! one side holds and the other does not is carried over, in the Workspace's direction first and
//! then in the Vault's, so that one pass leaves both sides holding all of them. A key neither side
//! holds has nowhere to come from, and is refused before anything moves.
//!
//! What crosses for a key is its manifest, when it is kept as chunks, and then each chunk the
//! manifest names; a key kept as one object crosses as an empty manifest and then the object. A
//! blob crosses as its length and then its bytes, in pieces that each fit one frame.
use vstd::prelude::*;

use crate::errors::{BincodeError, IoError};
use crate::protocol::data::ActionSide;
use crate::protocol::error::ActionError;
use crate::protocol::sync::MAX_FRAME;
use crate::storage::error::Error as StoreError;
use crate::storage::manifest::{manifest_of, Manifest};
use crate::storage::presence::{held_at, Presence};

verus! {

/// Which side a key is being carried to.
#[derive(Debug, Clone, Copy, PartialEq, Eq, Structural)]
pub enum Side {
    /// To the Vault, which is where a Workspace's values go.
    Vault,
    /// To the Workspace.
    Workspace,
}

/// How much room the framing around one value is left.
pub const FRAMING: usize = 1024;

/// How many bytes of a blob one value carries: a frame, less the room its framing takes.
pub const PIECE: usize = MAX_FRAME - FRAMING;

/// Whether the side `here` is the one sending what is carried `to` the other: the side a value
/// goes to is the side that does not have it.
pub open spec fn sends_to(here: ActionSide, to: Side) -> bool {
    match to {
        Side::Vault => here is Workspace,
        Side::Workspace => here is Vault,
    }
}

/// Whether the side `here` sends what is carried `to` the other.
pub fn sending(here: ActionSide, to: Side) -> (sends: bool)
    ensures
        sends == sends_to(here, to),
{
    match to {
        Side::Vault => here.is_workspace(),
        Side::Workspace => here.is_vault(),
    }
}

/// How many pieces a blob of `len` bytes crosses in: as many as it takes, the last one short.
pub open spec fn piece_count(len: nat) -> nat {
    if len % (PIECE as nat) == 0 {
        len / (PIECE as nat)
    } else {
        len / (PIECE as nat) + 1
    }
}

/// How many pieces a blob of `len` bytes crosses in.
pub fn pieces_in(len: usize) -> (count: usize)
    ensures
        count == piece_count(len as nat),
{
    if len % PIECE == 0 {
        len / PIECE
    } else {
        len / PIECE + 1
    }
}

/// Where piece `at` of a blob of `len` bytes ends: a piece's width on, or the blob's end.
pub open spec fn piece_end(len: nat, at: nat) -> nat {
    if at * PIECE + PIECE <= len {
        (at * PIECE + PIECE) as nat
    } else {
        len
    }
}

/// Piece `at` of `blob`: the bytes from `at` pieces in, up to a piece's width of them.
pub open spec fn piece_of(blob: Seq<u8>, at: nat) -> Seq<u8> {
    blob.subrange((at * PIECE) as int, piece_end(blob.len(), at) as int)
}

/// Piece `at` of `blob`.
pub fn piece(blob: &[u8], at: usize) -> (part: Vec<u8>)
    requires
        at < piece_count(blob@.len()),
    ensures
        part@ == piece_of(blob@, at as nat),
{
    proof {
        lemma_piece_bounds(blob@.len(), at as nat);
    }
    assert(PIECE == 16776192);
    assert(at * PIECE < blob@.len());
    assert(blob@.len() == blob.len());
    let start: usize = (at * PIECE) as usize;
    let end = if blob.len() - start >= PIECE {
        start + PIECE
    } else {
        blob.len()
    };
    let mut part: Vec<u8> = Vec::new();
    let mut i: usize = start;
    while i < end
        invariant
            start <= i <= end <= blob@.len(),
            part@ == blob@.subrange(start as int, i as int),
        decreases end - i,
    {
        part.push(blob[i]);
        i = i + 1;
        assert(part@ =~= blob@.subrange(start as int, i as int));
    }
    part
}

/// A piece that is one of a blob's starts inside the blob and is not empty.
pub proof fn lemma_piece_bounds(len: nat, at: nat)
    requires
        at < piece_count(len),
    ensures
        at * PIECE < len,
        at * PIECE <= piece_end(len, at) <= len,
        piece_end(len, at) == (at + 1) * PIECE || at + 1 == piece_count(len),
{
    let p = PIECE as nat;
    assert(at * p < len) by (nonlinear_arith)
        requires
            p > 0,
            at < (if len % p == 0 {
                len / p
            } else {
                len / p + 1
            }),
            len == p * (len / p) + len % p,
            0 <= len % p < p,
    {
        if len % p == 0 {
            assert(at + 1 <= len / p);
            assert(at * p + p <= (len / p) * p);
        } else {
            assert(at <= len / p);
            assert(at * p <= (len / p) * p);
        }
    }
    assert((at + 1) * p == at * p + p) by (nonlinear_arith);
    if at * p + p > len {
        assert(at + 1 == piece_count(len)) by (nonlinear_arith)
            requires
                p > 0,
                at * p < len,
                at * p + p > len,
                len == p * (len / p) + len % p,
                0 <= len % p < p,
                piece_count(len) == (if len % p == 0 {
                    len / p
                } else {
                    len / p + 1
                }),
        {
            assert(at <= len / p);
            assert(len / p <= at);
            if len % p == 0 {
                assert(len == p * (len / p));
                assert(false);
            }
        }
    }
}

/// The first `k` pieces of `blob`, put back together.
pub open spec fn joined_pieces(blob: Seq<u8>, k: nat) -> Seq<u8>
    decreases k,
{
    if k == 0 {
        Seq::empty()
    } else {
        joined_pieces(blob, (k - 1) as nat) + piece_of(blob, (k - 1) as nat)
    }
}

/// The first `k` pieces of `blob` put back together are the blob up to `k` pieces in, or the whole
/// of it.
proof fn lemma_joined_prefix(blob: Seq<u8>, k: nat)
    requires
        k <= piece_count(blob.len()),
    ensures
        joined_pieces(blob, k) == blob.subrange(0, (if k * PIECE <= blob.len() {
            k * PIECE
        } else {
            blob.len() as int
        }) as int),
    decreases k,
{
    if k == 0 {
        assert(blob.subrange(0, 0) =~= Seq::<u8>::empty());
    } else {
        lemma_joined_prefix(blob, (k - 1) as nat);
        lemma_piece_bounds(blob.len(), (k - 1) as nat);
        assert(k * PIECE == (k - 1) * PIECE + PIECE) by (nonlinear_arith);
        assert(blob.subrange(0, ((k - 1) * PIECE) as int) + piece_of(blob, (k - 1) as nat)
            =~= blob.subrange(0, piece_end(blob.len(), (k - 1) as nat) as int));
    }
}

/// The pieces a blob crosses in, put back together in the order they crossed, are the blob: what
/// the side taking it reads is what the side sending it had.
pub proof fn lemma_pieces_rebuild_blob(blob: Seq<u8>)
    ensures
        joined_pieces(blob, piece_count(blob.len())) == blob,
{
    let n = piece_count(blob.len());
    lemma_joined_prefix(blob, n);
    let p = PIECE as nat;
    let len = blob.len();
    assert(n * p >= len) by (nonlinear_arith)
        requires
            p > 0,
            n == (if len % p == 0 {
                len / p
            } else {
                len / p + 1
            }),
            len == p * (len / p) + len % p,
            0 <= len % p < p,
    {
    }
    assert(blob.subrange(0, len as int) =~= blob);
}

/// Whether the key at `at` is held by neither side, going by the two answers.
pub open spec fn held_by_neither(workspace: Seq<u8>, vault: Seq<u8>, at: int) -> bool {
    !held_at(workspace, at) && !held_at(vault, at)
}

/// The keys among the first `count` that go from the `from` side to the other: held by the one
/// and not by the other, in the order they were asked for.
pub open spec fn moving(from: Seq<u8>, other: Seq<u8>, count: nat) -> Seq<usize>
    decreases count,
{
    if count == 0 {
        Seq::empty()
    } else {
        let before = moving(from, other, (count - 1) as nat);
        let at = (count - 1) as int;
        if held_at(from, at) && !held_at(other, at) {
            before.push(at as usize)
        } else {
            before
        }
    }
}

/// Which of the `count` keys asked for cross, and which way, going by what the Workspace holds of
/// them and what the Vault does: first those that go up to the Vault, then those that come down
/// to the Workspace.
///
/// A key neither side holds is `ActionError::MissingObject`: there is nowhere for it to come from,
/// and moving the others would only hide that.
pub fn sync_plan(count: usize, workspace: &Presence, vault: &Presence) -> (plan: Result<
    (Vec<usize>, Vec<usize>),
    ActionError,
>)
    ensures
        plan is Err <==> exists|at: int| 0 <= at < count && held_by_neither(workspace@, vault@, at),
        plan matches Err(error) ==> error is MissingObject,
        plan matches Ok((up, down)) ==> up@ == moving(workspace@, vault@, count as nat) && down@
            == moving(vault@, workspace@, count as nat),
{
    let mut at: usize = 0;
    while at < count
        invariant
            at <= count,
            forall|k: int| 0 <= k < at ==> !held_by_neither(workspace@, vault@, k),
        decreases count - at,
    {
        if !workspace.held(at) && !vault.held(at) {
            assert(held_by_neither(workspace@, vault@, at as int));
            return Err(ActionError::MissingObject);
        }
        at = at + 1;
    }
    let mut up: Vec<usize> = Vec::new();
    let mut down: Vec<usize> = Vec::new();
    let mut k: usize = 0;
    while k < count
        invariant
            k <= count,
            up@ == moving(workspace@, vault@, k as nat),
            down@ == moving(vault@, workspace@, k as nat),
        decreases count - k,
    {
        if workspace.held(k) && !vault.held(k) {
            up.push(k);
        }
        if vault.held(k) && !workspace.held(k) {
            down.push(k);
        }
        k = k + 1;
    }
    Ok((up, down))
}

/// What moves from `from` is every key among the first `count` that `from` holds and `other` does
/// not, and nothing else.
pub proof fn lemma_moving(from: Seq<u8>, other: Seq<u8>, count: nat)
    requires
        count <= usize::MAX,
    ensures
        forall|i: int|
            0 <= i < moving(from, other, count).len() ==> #[trigger] moving(from, other, count)[i]
                < count && held_at(from, moving(from, other, count)[i] as int) && !held_at(
                other,
                moving(from, other, count)[i] as int,
            ),
        forall|at: int|
            0 <= at < count && held_at(from, at) && !held_at(other, at) ==> moving(
                from,
                other,
                count,
            ).contains(at as usize),
    decreases count,
{
    if count > 0 {
        lemma_moving(from, other, (count - 1) as nat);
        let before = moving(from, other, (count - 1) as nat);
        let last = (count - 1) as int;
        let all = moving(from, other, count);
        assert forall|i: int| 0 <= i < all.len() implies #[trigger] all[i] < count && held_at(
            from,
            all[i] as int,
        ) && !held_at(other, all[i] as int) by {
            if i < before.len() {
                assert(all[i] == before[i]);
            }
        }
        assert forall|at: int|
            0 <= at < count && held_at(from, at) && !held_at(other, at) implies all.contains(
            at as usize,
        ) by {
            if at < last {
                let j = choose|j: int| 0 <= j < before.len() && before[j] == at as usize;
                assert(all[j] == before[j]);
            } else {
                assert(all[before.len() as int] == last as usize);
            }
        }
    }
}

/// After one pass, both sides hold every key asked for: a key the Workspace lacks came down to
/// it, and a key the Vault lacks went up to it.
pub proof fn lemma_pass_leaves_both_holding(workspace: Seq<u8>, vault: Seq<u8>, count: nat)
    requires
        count <= usize::MAX,
        forall|at: int| 0 <= at < count ==> !held_by_neither(workspace, vault, at),
    ensures
        forall|at: int|
            0 <= at < count ==> (held_at(workspace, at) || moving(vault, workspace, count).contains(
                at as usize,
            )) && (#[trigger] held_at(vault, at) || moving(workspace, vault, count).contains(
                at as usize,
            )),
        forall|at: int|
            0 <= at < count ==> !(#[trigger] moving(workspace, vault, count).contains(at as usize)
                && moving(vault, workspace, count).contains(at as usize)),
{
    lemma_moving(workspace, vault, count);
    lemma_moving(vault, workspace, count);
    assert forall|at: int| 0 <= at < count implies (held_at(workspace, at) || moving(
        vault,
        workspace,
        count,
    ).contains(at as usize)) && (#[trigger] held_at(vault, at) || moving(
        workspace,
        vault,
        count,
    ).contains(at as usize)) by {
        assert(!held_by_neither(workspace, vault, at));
    }
}

/// What a store failure means to an action: a failed store is a failed channel's kind of failure
/// where it was I/O, a key held a moment ago and not now is a key held by neither side, and
/// anything else is the store's failure, as it said.
pub fn store_failed(error: StoreError) -> (failed: ActionError)
    ensures
        error is Io ==> failed is Io,
        error is NotFound ==> failed is MissingObject,
        !(error is Io) && !(error is NotFound) ==> (failed matches ActionError::Store(said) && said@
            == crate::storage::error::error_text(error)),
{
    match error {
        StoreError::Io(source) => ActionError::Io(IoError::from(source)),
        StoreError::NotFound(_) => ActionError::MissingObject,
        error => ActionError::Store(error.to_string()),
    }
}

/// What follows a key's manifest as it crosses: the chunks the manifest names, or, where the
/// manifest is empty, the one object the content is kept as.
///
/// A manifest that does not read is `ActionError::Codec`, naming what the store said of it.
pub fn manifest_follows(bytes: &[u8]) -> (follows: Result<Option<Manifest>, ActionError>)
    ensures
        bytes@.len() == 0 ==> follows matches Ok(None),
        bytes@.len() > 0 ==> (follows is Ok <==> manifest_of(bytes@) is Some),
        follows matches Ok(Some(manifest)) ==> bytes@.len() > 0 && manifest_of(bytes@) == Some(
            manifest@,
        ),
        follows matches Err(error) ==> error is Codec,
{
    if bytes.len() == 0 {
        return Ok(None);
    }
    match Manifest::decode(bytes) {
        Ok(manifest) => Ok(Some(manifest)),
        Err(error) => Err(ActionError::Codec(BincodeError::new(error.to_string()))),
    }
}

/// What one key is made of, as the store on this side keeps it.
pub enum Pieces {
    /// The content is kept as one object, which is the whole of it.
    Whole(Vec<u8>),
    /// The content is kept as chunks: the manifest that names them, and the chunks, in the order
    /// it names them.
    Cut(Manifest, Vec<Vec<u8>>),
}

impl Pieces {
    /// The manifest as it crosses, or nothing when the content is one object.
    pub fn manifest_bytes(&self) -> (bytes: Option<Vec<u8>>)
        ensures
            self is Whole ==> bytes is None,
            self matches Pieces::Cut(manifest, _) ==> (bytes matches Some(b) && b@
                == crate::storage::manifest::manifest_bytes(manifest@)),
    {
        match self {
            Pieces::Whole(_) => None,
            Pieces::Cut(manifest, _) => Some(manifest.encode()),
        }
    }

    /// The chunks, in the order the manifest names them.
    pub fn chunks(&self) -> (chunks: Option<&Vec<Vec<u8>>>)
        ensures
            self is Whole ==> chunks is None,
            self matches Pieces::Cut(_, held) ==> chunks == Some(held),
    {
        match self {
            Pieces::Whole(_) => None,
            Pieces::Cut(_, chunks) => Some(chunks),
        }
    }

    /// The object, when the content is one.
    pub fn whole(&self) -> (whole: Option<&Vec<u8>>)
        ensures
            self matches Pieces::Whole(bytes) ==> whole == Some(bytes),
            self is Cut ==> whole is None,
    {
        match self {
            Pieces::Whole(bytes) => Some(bytes),
            Pieces::Cut(_, _) => None,
        }
    }
}

} // verus!

//! The actions a daemon serves: the handshake a peer speaks first, and the full sync of two
//! stores.
use vstd::prelude::*;

use crate::storage::key::{lemma_key_len, Key};
use crate::storage::keyset::{in_digest_order, insert_key, key_digests};
use crate::text::push_text;

verus! {

/// What a daemon says when it stops.
#[derive(Debug, Default)]
pub struct DaemonExit {}

/// The action a peer speaks first: the Workspace says a name, and both sides end up holding the
/// Vault's greeting to it.
#[derive(Debug)]
pub struct ActionHandshake;

impl ActionHandshake {
    /// The handshake is id 0: it is what a peer speaks first.
    pub const ID: u32 = 0;
}

/// The action that makes the Workspace's store and the Vault's hold the same keys: everything
/// either of them holds.
#[derive(Debug)]
pub struct ActionSyncAll;

impl ActionSyncAll {
    /// The sync is id 1: what a peer asks for once it has spoken.
    pub const ID: u32 = 1;
}

/// What a Vault says of itself in a greeting: its name, and then what it is.
pub open spec fn welcome_text(name: Seq<char>, description: Seq<char>) -> Seq<char> {
    "I'm "@ + name + ".\n\n"@ + description
}

/// What a Vault named `name` and described as `description` says of itself.
pub fn vault_welcome(name: &str, description: &str) -> (welcome: String)
    ensures
        welcome@ == welcome_text(name@, description@),
{
    let mut welcome = String::new();
    push_text(&mut welcome, "I'm ");
    push_text(&mut welcome, name);
    push_text(&mut welcome, ".\n\n");
    push_text(&mut welcome, description);
    welcome
}

/// The greeting a handshake comes to: the name the Workspace said, and what the Vault says of
/// itself after it.
pub open spec fn greeting_text(said: Seq<char>, response: Seq<char>) -> Seq<char> {
    "Hello, "@ + said + ", "@ + response
}

/// The greeting to `said`, answered with `response`.
pub fn greeting(said: &str, response: &str) -> (greeting: String)
    ensures
        greeting@ == greeting_text(said@, response@),
{
    let mut greeting = String::new();
    push_text(&mut greeting, "Hello, ");
    push_text(&mut greeting, said);
    push_text(&mut greeting, ", ");
    push_text(&mut greeting, response);
    greeting
}

/// The digests in `run`: each thirty-two bytes of it in turn, what is left over after the last
/// whole one dropped.
pub open spec fn digests_in(run: Seq<u8>) -> Seq<Seq<u8>> {
    Seq::new(run.len() / 32, |i: int| run.subrange(32 * i, 32 * i + 32))
}

/// What a side holds, as the one run of digests that crosses: each key's digest, one after the
/// other.
pub open spec fn digest_run(keys: Seq<Key>) -> Seq<u8>
    decreases keys.len(),
{
    if keys.len() == 0 {
        Seq::empty()
    } else {
        digest_run(keys.drop_last()) + keys.last()@
    }
}

/// The run of digests the keys `keys` cross as.
pub fn held_digests(keys: &[Key]) -> (run: Vec<u8>)
    ensures
        run@ == digest_run(keys@),
{
    let mut run: Vec<u8> = Vec::new();
    let mut i: usize = 0;
    assert(keys@.take(0) =~= Seq::<Key>::empty());
    while i < keys.len()
        invariant
            i <= keys@.len(),
            run@ == digest_run(keys@.take(i as int)),
        decreases keys.len() - i,
    {
        assert(keys@.take(i + 1).drop_last() =~= keys@.take(i as int));
        let digest = keys[i].digest();
        let mut k: usize = 0;
        let ghost before = run@;
        while k < 32
            invariant
                k <= 32,
                digest@ == keys@[i as int]@,
                digest@.len() == 32,
                run@ == before + digest@.take(k as int),
            decreases 32 - k,
        {
            run.push(digest[k]);
            k = k + 1;
            assert(run@ =~= before + digest@.take(k as int));
        }
        assert(digest@.take(32) =~= digest@);
        i = i + 1;
    }
    assert(keys@.take(i as int) =~= keys@);
    run
}

/// A run of digests read back is the keys it was written from.
pub proof fn lemma_digest_run_reads_back(keys: Seq<Key>)
    ensures
        digests_in(digest_run(keys)) == key_digests(keys),
        digest_run(keys).len() == 32 * keys.len(),
    decreases keys.len(),
{
    if keys.len() > 0 {
        lemma_digest_run_reads_back(keys.drop_last());
        lemma_key_len(keys.last());
        let before = digest_run(keys.drop_last());
        let run = digest_run(keys);
        assert(run.len() / 32 == keys.len());
        assert forall|i: int| 0 <= i < keys.len() implies #[trigger] digests_in(run)[i]
            == key_digests(keys)[i] by {
            if i < keys.len() - 1 {
                assert(digests_in(before)[i] == key_digests(keys.drop_last())[i]);
                assert(run.subrange(32 * i, 32 * i + 32) =~= before.subrange(32 * i, 32 * i + 32));
            } else {
                assert(run.subrange(32 * i, 32 * i + 32) =~= keys.last()@);
            }
        }
        assert(digests_in(run) =~= key_digests(keys));
    } else {
        assert(digests_in(Seq::<u8>::empty()) =~= key_digests(keys));
    }
}

/// Adds every digest in `run` to `keys`, which are in key order.
fn insert_run(keys: &mut Vec<Key>, run: &[u8])
    requires
        in_digest_order(key_digests(old(keys)@)),
    ensures
        in_digest_order(key_digests(final(keys)@)),
        key_digests(final(keys)@).to_set() == key_digests(old(keys)@).to_set() + digests_in(
            run@,
        ).to_set(),
{
    let ghost start = key_digests(keys@).to_set();
    let ghost all = digests_in(run@);
    let count = run.len() / 32;
    let mut i: usize = 0;
    assert(all.take(0).to_set() =~= Set::<Seq<u8>>::empty());
    assert(start =~= start + all.take(0).to_set());
    while i < count
        invariant
            i <= count,
            count == run@.len() / 32,
            all == digests_in(run@),
            in_digest_order(key_digests(keys@)),
            key_digests(keys@).to_set() == start + all.take(i as int).to_set(),
        decreases count - i,
    {
        assert(32 * i + 32 <= run@.len()) by (nonlinear_arith)
            requires
                i < count,
                count == run@.len() / 32,
        ;
        assert(run@.len() == run.len());
        let key = Key::read(run, 32 * i);
        assert(key@ == all[i as int]);
        insert_key(keys, key);
        assert(all.take(i + 1) =~= all.take(i as int).push(all[i as int]));
        proof {
            all.take(i as int).lemma_push_to_set_commute(all[i as int]);
        }
        assert(key_digests(keys@).to_set() =~= start + all.take(i + 1).to_set());
        i = i + 1;
    }
    assert(all.take(count as int) =~= all);
}

/// Everything either side holds, from the runs of digests the Workspace and the Vault said they
/// hold: each digest once, in key order, which is one order both ends reach on their own.
pub fn required_keys(workspace_run: &[u8], vault_run: &[u8]) -> (keys: Vec<Key>)
    ensures
        in_digest_order(key_digests(keys@)),
        key_digests(keys@).to_set() == digests_in(workspace_run@).to_set() + digests_in(
            vault_run@,
        ).to_set(),
{
    let mut keys: Vec<Key> = Vec::new();
    assert(key_digests(keys@) =~= Seq::<Seq<u8>>::empty());
    assert(key_digests(keys@).to_set() =~= Set::<Seq<u8>>::empty());
    insert_run(&mut keys, workspace_run);
    insert_run(&mut keys, vault_run);
    assert(Set::<Seq<u8>>::empty() + digests_in(workspace_run@).to_set() =~= digests_in(
        workspace_run@,
    ).to_set());
    keys
}

} // verus!

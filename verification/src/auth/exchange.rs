//! The fresh secrets a handshake is made from: an X25519 exchange, and an ML-KEM-768 key a secret
//! is encapsulated to.
//!
//! What is drawn at random is drawn here and said nothing of; what is worked out from it is named,
//! so that a handshake's contract can say which secret it was drawn from.
use vstd::prelude::*;

use ml_kem::{Decapsulate, Encapsulate, Kem, KeyExport};

use crate::auth::channel::{KEM_CIPHERTEXT_LEN, KEM_ENCAPSULATION_LEN};

verus! {

/// X25519 of the scalar `scalar` and the point `point`, as `x25519_dalek::x25519` works it out.
pub uninterp spec fn x25519_of(scalar: Seq<u8>, point: Seq<u8>) -> Seq<u8>;

/// The ML-KEM-768 encapsulation key the 64-byte seed `seed` makes.
pub uninterp spec fn kem_public_of(seed: Seq<u8>) -> Seq<u8>;

/// What the ML-KEM-768 key made from `seed` decapsulates `ciphertext` to.
pub uninterp spec fn kem_shared_of(seed: Seq<u8>, ciphertext: Seq<u8>) -> Seq<u8>;

/// Whether `key` reads as an ML-KEM-768 encapsulation key.
pub uninterp spec fn kem_key_valid(key: Seq<u8>) -> bool;

/// The point X25519 public keys are made from: nine, in 32 little-endian bytes.
pub open spec fn basepoint() -> Seq<u8> {
    seq![9u8] + Seq::new(31, |i: int| 0u8)
}

/// Whether an exchange came to something: a shared secret of all zeros is one any peer can
/// force, by sending a point of small order.
pub open spec fn contributes(shared: Seq<u8>) -> bool {
    exists|i: int| 0 <= i < shared.len() && shared[i] != 0u8
}

/// A fresh X25519 secret, by `x25519_dalek::StaticSecret::random` and `to_bytes`: 32 bytes from
/// the system's random source, of which nothing is claimed.
#[verifier::external_body]
pub(crate) fn x25519_fresh_secret() -> (secret: [u8; 32]) {
    x25519_dalek::StaticSecret::random().to_bytes()
}

/// `x25519_dalek::x25519` of `scalar` and `point`, named.
#[verifier::external_body]
pub(crate) fn x25519(scalar: &[u8; 32], point: &[u8; 32]) -> (out: [u8; 32])
    ensures
        out@ == x25519_of(scalar@, point@),
{
    x25519_dalek::x25519(*scalar, *point)
}

/// A fresh ML-KEM-768 key, by `MlKem768::generate_keypair` and `KeyExport::to_bytes` on the
/// decapsulation key: its 64-byte seed, drawn from the system's random source, of which nothing
/// is claimed.
#[verifier::external_body]
pub(crate) fn kem_fresh_seed() -> (seed: [u8; 64]) {
    let (decapsulation, _) = ml_kem::MlKem768::generate_keypair();
    decapsulation.to_bytes().into()
}

/// The encapsulation key of the ML-KEM-768 key made from `seed`, by
/// `DecapsulationKey768::from_seed`, `encapsulation_key` and `KeyExport::to_bytes`.
///
/// The contract names the key, and claims its length, which its type fixes.
#[verifier::external_body]
pub(crate) fn kem_public(seed: &[u8; 64]) -> (key: Vec<u8>)
    ensures
        key@ == kem_public_of(seed@),
        key@.len() == KEM_ENCAPSULATION_LEN,
{
    ml_kem::DecapsulationKey768::from_seed((*seed).into()).encapsulation_key().to_bytes().to_vec()
}

/// What the ML-KEM-768 key made from `seed` decapsulates `ciphertext` to, by
/// `DecapsulationKey768::from_seed` and `Decapsulate::decapsulate_slice`.
///
/// The contract names the secret, and claims what the source shows: the slice is refused only
/// where it is not as long as a ciphertext, and decapsulation itself never fails.
#[verifier::external_body]
pub(crate) fn kem_decapsulate(seed: &[u8; 64], ciphertext: &[u8]) -> (shared: Option<[u8; 32]>)
    ensures
        shared is Some <==> ciphertext@.len() == KEM_CIPHERTEXT_LEN,
        shared matches Some(s) ==> s@ == kem_shared_of(seed@, ciphertext@),
{
    ml_kem::DecapsulationKey768::from_seed((*seed).into())
        .decapsulate_slice(ciphertext)
        .ok()
        .map(|shared| shared.into())
}

/// A fresh secret encapsulated to `key`, by `EncapsulationKey768::new` and
/// `Encapsulate::encapsulate`: the ciphertext and the secret, where `key` reads as a key.
///
/// Which secret is drawn is random, so the contract claims only that a key that reads is one
/// this comes back for, with a ciphertext as long as the scheme's; what the secret and the
/// ciphertext are is left unsaid.
#[verifier::external_body]
pub(crate) fn kem_encapsulate(key: &[u8]) -> (encapsulated: Option<(Vec<u8>, [u8; 32])>)
    ensures
        encapsulated is Some <==> kem_key_valid(key@),
        encapsulated matches Some((ciphertext, _)) ==> ciphertext@.len() == KEM_CIPHERTEXT_LEN,
{
    let key = ml_kem::Key::<ml_kem::EncapsulationKey768>::try_from(key).ok()?;
    let key = ml_kem::EncapsulationKey768::new(&key).ok()?;
    let (ciphertext, shared) = key.encapsulate();
    Some((ciphertext.to_vec(), shared.into()))
}

/// The X25519 public key of the secret `secret`.
pub fn exchange_public(secret: &[u8; 32]) -> (public: [u8; 32])
    ensures
        public@ == x25519_of(secret@, basepoint()),
{
    let mut base = [0u8; 32];
    base[0] = 9u8;
    assert(base@ =~= basepoint());
    x25519(secret, &base)
}

/// The secret the exchange of `secret` with the peer's key `peer` comes to, and whether it came
/// to anything.
pub fn exchange_shared(secret: &[u8; 32], peer: &[u8; 32]) -> (shared: ([u8; 32], bool))
    ensures
        shared.0@ == x25519_of(secret@, peer@),
        shared.1 == contributes(shared.0@),
{
    let out = x25519(secret, peer);
    let mut i: usize = 0;
    let mut any = false;
    while i < 32
        invariant
            i <= 32,
            out@.len() == 32,
            any == exists|k: int| 0 <= k < i && out@[k] != 0u8,
        decreases 32 - i,
    {
        if out[i] != 0u8 {
            assert(out@[i as int] != 0u8);
            any = true;
        }
        i = i + 1;
    }
    (out, any)
}

} // verus!

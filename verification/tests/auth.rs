use ed25519_dalek::pkcs8::spki::der::pem::LineEnding;
use ed25519_dalek::pkcs8::{EncodePrivateKey as _, EncodePublicKey as _};
use rorolala::auth::error::Error;
use rorolala::auth::identity::{account_scopes, member_scopes, merged, KeyLocateRule, Scope};
use rorolala::auth::key::{Fingerprint, KeyAlgorithm, PublicKey, Signature, SigningKey};

/// A key with a given seed, so a test is deterministic.
fn key(seed: u8) -> SigningKey {
    SigningKey::from_bytes(KeyAlgorithm::Ed25519, &[seed; 32]).unwrap()
}

#[test]
fn each_error_says_what_went_wrong() {
    assert_eq!(
        Error::Malformed.to_string(),
        "a key or signature was malformed"
    );
    assert_eq!(Error::BadSignature.to_string(), "a signature did not verify");
    assert_eq!(
        Error::UnexpectedIdentity.to_string(),
        "the peer proved an identity that was not expected"
    );
    assert_eq!(
        Error::Handshake.to_string(),
        "the handshake did not follow the protocol"
    );
    assert_eq!(Error::BadRecord.to_string(), "a record did not decrypt");
}

#[test]
fn an_io_error_keeps_what_the_stream_said_and_carries_a_source() {
    let error: Error =
        std::io::Error::new(std::io::ErrorKind::ConnectionReset, "reset by peer").into();

    assert!(error.to_string().contains("reset by peer"));
    assert!(error.has_source());
    assert!(!Error::Handshake.has_source());
}

#[test]
fn a_signature_verifies_under_the_key_it_was_made_by() {
    let signing = key(1);
    let message = b"rorolala";

    let signature = signing.sign(message);

    assert!(signing.public_key().verify(message, &signature).is_ok());
}

#[test]
fn another_key_does_not_verify_the_signature() {
    let signature = key(1).sign(b"rorolala");

    assert!(matches!(
        key(2).public_key().verify(b"rorolala", &signature),
        Err(Error::BadSignature)
    ));
}

#[test]
fn a_changed_message_does_not_verify() {
    let signing = key(1);
    let signature = signing.sign(b"rorolala");

    assert!(matches!(
        signing.public_key().verify(b"rorolala!", &signature),
        Err(Error::BadSignature)
    ));
}

#[test]
fn a_fingerprint_names_the_key_and_its_algorithm() {
    let public = key(1).public_key();

    assert_eq!(public.fingerprint(), key(1).public_key().fingerprint());
    assert_ne!(public.fingerprint(), key(2).public_key().fingerprint());
    assert_eq!(
        public.fingerprint(),
        Fingerprint::of(KeyAlgorithm::Ed25519, public.as_bytes())
    );
    assert_eq!(public.fingerprint().to_string().len(), 64);
}

#[test]
fn a_key_of_the_wrong_length_is_rejected() {
    assert!(matches!(
        PublicKey::from_bytes(KeyAlgorithm::Ed25519, vec![0; 31]),
        Err(Error::Malformed)
    ));
    assert!(matches!(
        Signature::from_bytes(KeyAlgorithm::Ed25519, vec![0; 63]),
        Err(Error::Malformed)
    ));
    assert!(matches!(
        SigningKey::from_bytes(KeyAlgorithm::Ed25519, &[0; 31]),
        Err(Error::Malformed)
    ));
}

#[test]
fn a_key_round_trips_through_its_bytes() {
    let public = key(7).public_key();
    let read = PublicKey::from_bytes(public.algorithm(), public.as_bytes().to_vec()).unwrap();

    assert_eq!(read, public);
    assert!(read.same_as(&public));
}

#[test]
fn an_algorithm_is_read_back_from_its_name() {
    let name = KeyAlgorithm::Ed25519.name_bytes();
    assert_eq!(KeyAlgorithm::from_name(&name), Some(KeyAlgorithm::Ed25519));
    assert_eq!(KeyAlgorithm::from_name(b"rsa"), None);
}

#[test]
fn an_account_is_never_looked_for_outside_the_local_scopes() {
    let everything = KeyLocateRule::new();
    assert_eq!(account_scopes(&everything), [Scope::Workspace, Scope::Vault]);

    let mut nowhere = KeyLocateRule::new();
    nowhere.set_find_local(false);
    assert!(account_scopes(&nowhere).is_empty());
}

#[test]
fn a_member_is_looked_for_nearest_first() {
    assert_eq!(
        member_scopes(&KeyLocateRule::new()),
        [Scope::Workspace, Scope::Vault, Scope::User, Scope::Global, Scope::Env]
    );
}

#[test]
fn a_shared_name_keeps_the_higher_scope() {
    // The higher scope names alice and bob, the lower one alice and carol.
    let names: Vec<String> = ["alice", "bob", "alice", "carol"]
        .iter()
        .map(|name| name.to_string())
        .collect();

    assert_eq!(merged(&names), [0, 1, 3]);
}

#[test]
fn a_private_key_document_reads_as_the_key_it_holds() {
    let dalek = ed25519_dalek::SigningKey::from_bytes(&[9; 32]);
    let pem = dalek.to_pkcs8_pem(LineEnding::LF).unwrap();

    let read = SigningKey::from_pem(pem.as_str()).unwrap();

    assert_eq!(read.public_key().as_bytes(), dalek.verifying_key().to_bytes());
    assert_eq!(read.public_key(), key(9).public_key());
}

#[test]
fn a_public_key_document_reads_as_the_key_it_holds() {
    let dalek = ed25519_dalek::SigningKey::from_bytes(&[10; 32]);
    let pem = dalek.verifying_key().to_public_key_pem(LineEnding::LF).unwrap();

    let read = PublicKey::from_pem(&pem).unwrap();

    assert_eq!(read, key(10).public_key());
}

#[test]
fn a_document_that_holds_no_key_is_malformed() {
    assert!(matches!(SigningKey::from_pem("not a key"), Err(Error::Malformed)));
    assert!(matches!(PublicKey::from_pem("not a key"), Err(Error::Malformed)));
}

#[test]
fn a_fingerprint_is_the_sha256_of_the_name_and_the_key() {
    let fingerprint = Fingerprint::of(KeyAlgorithm::Ed25519, &[0; 32]);

    assert_eq!(
        fingerprint.to_string(),
        "8819001b0f625268cbf74431b52cb992c43553940fbe5f33b64c04d89fe42c50"
    );
}

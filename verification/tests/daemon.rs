use rorolala::auth::error::Error as AuthError;
use rorolala::auth::key::{KeyAlgorithm, SigningKey};
use rorolala::daemon::actions::{
    greeting, held_digests, required_keys, vault_welcome, ActionHandshake, ActionSyncAll,
};
use rorolala::daemon::carry::{
    manifest_follows, piece, pieces_in, sending, store_failed, sync_plan, Side, PIECE,
};
use rorolala::daemon::session::{
    admission, member_roots, member_rule, vault_choice, Place, SessionError, VaultChoice,
};
use rorolala::daemon::wire::{confirmation, confirms, request_frame, request_length, MAX_REQUEST};
use rorolala::protocol::data::ActionSide;
use rorolala::protocol::error::ActionError;
use rorolala::storage::error::Error as StoreError;
use rorolala::storage::presence::Presence;
use rorolala::Key;

#[test]
fn a_confirmation_is_the_low_two_bytes_of_an_id() {
    assert_eq!(confirmation(0), [0, 0]);
    assert_eq!(confirmation(1), [0, 1]);
    assert_eq!(confirmation(256), [1, 0]);
    assert_eq!(confirmation(0x1234_5678), [0x56, 0x78]);
    assert_eq!(confirmation(0xFFFF_0001), [0, 1]);
}

#[test]
fn a_confirmation_confirms_its_own_id_and_no_other_of_its_low_bytes() {
    assert!(confirms(ActionHandshake::ID, &confirmation(ActionHandshake::ID)));
    assert!(!confirms(ActionSyncAll::ID, &confirmation(ActionHandshake::ID)));
    assert!(confirms(0x0001_0001, &[0, 1]));
}

#[test]
fn a_request_is_framed_behind_its_length() {
    assert_eq!(request_frame(&[5, 6]).unwrap(), vec![0, 0, 0, 2, 5, 6]);
    assert_eq!(request_frame(&[]).unwrap(), vec![0, 0, 0, 0]);
}

#[test]
fn a_frame_longer_than_the_bound_is_refused() {
    let too_long = u32::try_from(MAX_REQUEST + 1).unwrap().to_be_bytes();
    assert!(matches!(
        request_length(&too_long),
        Err(ActionError::ValueTooLarge)
    ));
    assert_eq!(request_length(&[0, 0, 16, 0]).unwrap(), MAX_REQUEST);
    assert_eq!(request_length(&[0, 0, 0, 9]).unwrap(), 9);
}

#[test]
fn every_session_failure_says_what_went_wrong() {
    let cases = [
        (
            SessionError::Handshake(AuthError::Malformed),
            "the handshake failed: a key or signature was malformed",
        ),
        (
            SessionError::Exchange(ActionError::NoChannel),
            "the request could not be answered: the action context has no channel",
        ),
        (
            SessionError::Key(AuthError::Malformed),
            "a member's key could not be read: a key or signature was malformed",
        ),
        (
            SessionError::UnknownMember("alice".to_string()),
            "no member is named alice",
        ),
        (
            SessionError::IdentityMismatch("bob".to_string()),
            "the peer is not the member it named (bob)",
        ),
        (
            SessionError::UnknownVault("alpha".to_string()),
            "no Vault is served under alpha",
        ),
        (
            SessionError::Action(ActionError::NoChannel),
            "the action failed: the action context has no channel",
        ),
    ];

    for (error, expected) in cases {
        assert_eq!(error.to_string(), expected);
    }
}

fn signing(seed: u8) -> SigningKey {
    SigningKey::from_bytes(KeyAlgorithm::Ed25519, &[seed; 32]).unwrap()
}

#[test]
fn a_caller_is_admitted_only_as_the_identity_it_proved() {
    let peer = signing(2).public_key();

    assert!(admission("client", Some(Ok(signing(2).public_key())), &peer).is_ok());
    assert!(matches!(
        admission("nobody", None, &peer),
        Err(SessionError::UnknownMember(name)) if name == "nobody"
    ));
    assert!(matches!(
        admission("client", Some(Ok(signing(6).public_key())), &peer),
        Err(SessionError::IdentityMismatch(name)) if name == "client"
    ));
    assert!(matches!(
        admission("client", Some(Err(AuthError::Malformed)), &peer),
        Err(SessionError::Key(AuthError::Malformed))
    ));
}

#[test]
fn a_sub_is_the_path_a_vault_sits_at_or_the_name_it_is_held_under() {
    for own in ["", ".", "/", "//./"] {
        assert!(matches!(vault_choice(own), VaultChoice::Own), "{own}");
    }

    for (named, path, under) in [
        ("alpha", "alpha", "vaults/alpha"),
        ("vaults/alpha", "vaults/alpha", "vaults/vaults/alpha"),
        ("alpha/", "alpha", "vaults/alpha"),
        ("/vaults/alpha", "vaults/alpha", "vaults/vaults/alpha"),
    ] {
        match vault_choice(named) {
            VaultChoice::Under(at, held) => {
                assert_eq!(at, path, "{named}");
                assert_eq!(held, under, "{named}");
            }
            VaultChoice::Own => panic!("{named}"),
        }
    }
}

#[test]
fn a_member_is_looked_for_only_where_the_vault_names() {
    let roots = member_roots(&[Place::Vault], &None, &None, &None, "keys", "root/keys");
    assert_eq!(roots, ["keys"]);

    let rule = member_rule();
    assert!(rule.find_local);
    assert!(!rule.find_global && !rule.find_user && !rule.find_env);

    let roots = member_roots(
        &[Place::User],
        &None,
        &Some("home/keys".to_string()),
        &None,
        "keys",
        "root/keys",
    );
    assert_eq!(roots, ["home/keys"]);
}

#[test]
fn a_vault_that_names_no_place_looks_nowhere() {
    let roots = member_roots(&[], &None, &None, &None, "keys", "root/keys");
    assert!(roots.is_empty());

    // A place whose directory is not known adds nothing, and the others keep their order.
    let roots = member_roots(
        &[Place::RootVault, Place::System, Place::Vault],
        &None,
        &None,
        &None,
        "keys",
        "root/keys",
    );
    assert_eq!(roots, ["root/keys", "keys"]);
}

#[test]
fn the_side_a_key_goes_to_is_the_side_that_does_not_send_it() {
    assert!(sending(ActionSide::Workspace, Side::Vault));
    assert!(!sending(ActionSide::Vault, Side::Vault));
    assert!(sending(ActionSide::Vault, Side::Workspace));
    assert!(!sending(ActionSide::Workspace, Side::Workspace));
}

#[test]
fn a_blob_crosses_in_pieces_that_put_it_back_together() {
    assert_eq!(pieces_in(0), 0);
    assert_eq!(pieces_in(1), 1);
    assert_eq!(pieces_in(PIECE), 1);
    assert_eq!(pieces_in(PIECE + 1), 2);

    let blob: Vec<u8> = (0..(PIECE + 10)).map(|at| (at % 251) as u8).collect();
    let count = pieces_in(blob.len());
    let mut put_back = Vec::new();
    for at in 0..count {
        put_back.extend_from_slice(&piece(&blob, at));
    }
    assert_eq!(piece(&blob, 1).len(), 10);
    assert_eq!(put_back, blob);
}

#[test]
fn a_key_neither_side_holds_stops_the_sync_before_anything_moves() {
    let workspace = Presence::from(vec![1_u8, 0, 1]);
    let vault = Presence::from(vec![0_u8, 0, 1]);

    assert!(matches!(
        sync_plan(3, &workspace, &vault),
        Err(ActionError::MissingObject)
    ));
}

#[test]
fn each_key_moves_toward_the_side_that_lacks_it() {
    let workspace = Presence::from(vec![1_u8, 0, 1, 1]);
    let vault = Presence::from(vec![0_u8, 1, 1, 0]);

    let (up, down) = sync_plan(4, &workspace, &vault).unwrap();
    assert_eq!(up, [0, 3]);
    assert_eq!(down, [1]);
}

fn key(seed: u8) -> Key {
    Key::new([seed; 32])
}

#[test]
fn everything_either_side_holds_is_required_once_in_key_order() {
    let workspace = held_digests(&[key(3), key(1)]);
    let mut vault = held_digests(&[key(2), key(3)]);
    // What is left over after the last whole digest is not one.
    vault.push(9);

    assert_eq!(workspace.len(), 64);
    assert_eq!(required_keys(&workspace, &vault), [key(1), key(2), key(3)]);
    assert!(required_keys(&[], &[]).is_empty());
}

#[test]
fn a_store_failure_means_what_the_action_can_say() {
    assert!(matches!(
        store_failed(StoreError::NotFound(key(1))),
        ActionError::MissingObject
    ));
    assert!(matches!(
        store_failed(StoreError::Io(std::io::Error::new(
            std::io::ErrorKind::Other,
            "disk"
        ))),
        ActionError::Io(_)
    ));
    match store_failed(StoreError::Malformed) {
        ActionError::Store(said) => assert_eq!(said, "what is stored does not read as its format"),
        other => panic!("{other:?}"),
    }
}

#[test]
fn an_empty_manifest_says_one_object_follows() {
    assert!(matches!(manifest_follows(&[]), Ok(None)));
    assert!(matches!(
        manifest_follows(&[1, 2, 3]),
        Err(ActionError::Codec(_))
    ));
}

#[test]
fn the_handshake_greets_the_name_it_was_given() {
    let response = vault_welcome("unknown_vault", "Unnamed Vault");
    assert_eq!(
        greeting("world", &response),
        "Hello, world, I'm unknown_vault.\n\nUnnamed Vault"
    );
    assert_eq!(ActionHandshake::ID, 0);
    assert_eq!(ActionSyncAll::ID, 1);
}

use ml_kem::{Decapsulate, DecapsulationKey768, Encapsulate, Kem, KeyExport, MlKem768};
use rorolala::auth::channel::{KEM_CIPHERTEXT_LEN, KEM_ENCAPSULATION_LEN};
use rorolala::auth::channel::{take_record, Direction};
use rorolala::auth::error::Error;
use rorolala::auth::exchange::{exchange_public, exchange_shared};
use rorolala::auth::key::{KeyAlgorithm, SigningKey};
use rorolala::auth::session::{Accepting, Connecting};
use x25519_dalek::{x25519, X25519_BASEPOINT_BYTES};

fn signing(seed: u8) -> SigningKey {
    SigningKey::from_bytes(KeyAlgorithm::Ed25519, &[seed; 32]).unwrap()
}

/// The two ends' fresh exchange secrets, and their public halves.
fn exchange() -> ([u8; 32], [u8; 32], [u8; 32], [u8; 32]) {
    let client = [3_u8; 32];
    let server = [4_u8; 32];
    (
        client,
        x25519(client, X25519_BASEPOINT_BYTES),
        server,
        x25519(server, X25519_BASEPOINT_BYTES),
    )
}

#[test]
fn both_ends_of_a_handshake_draw_the_same_keys() {
    let me = signing(2);
    let vault = signing(1);
    let (client_secret, client_public, server_secret, server_public) = exchange();
    let kem = DecapsulationKey768::from_seed([7_u8; 64].into());
    let encapsulation = kem.encapsulation_key().to_bytes();

    let (mut connecting, offer) =
        Connecting::start(&client_public, &me.public_key(), encapsulation.as_slice()).unwrap();

    let (mut accepting, offered) = Accepting::on_offer(&offer).unwrap();
    assert_eq!(offered.peer_ephemeral, client_public);
    assert_eq!(offered.encapsulation, encapsulation.as_slice());
    assert_eq!(accepting.peer(), &me.public_key());

    let (ciphertext, sent) = kem
        .encapsulation_key()
        .encapsulate_deterministic(&[9_u8; 32].into());
    let answering = accepting
        .answer(&server_public, &vault, ciphertext.as_slice())
        .unwrap();

    let answered = connecting
        .on_answer(&answering.message, &vault.public_key())
        .unwrap();
    assert_eq!(answered.peer, vault.public_key());
    let decapsulated = kem.decapsulate_slice(&answered.ciphertext).unwrap();

    let (sealed, client_keys) = connecting
        .finish(
            &answered,
            &x25519(client_secret, server_public),
            true,
            Some(decapsulated.to_vec()),
            &me,
        )
        .unwrap();
    let server_keys = accepting
        .finish(
            &answering,
            &x25519(server_secret, client_public),
            true,
            sent.as_slice(),
            &sealed,
        )
        .unwrap();

    assert_eq!(client_keys.sealing, server_keys.opening);
    assert_eq!(client_keys.opening, server_keys.sealing);
    assert_ne!(client_keys.sealing, client_keys.opening);
}

#[test]
fn an_answer_from_another_identity_is_refused() {
    let me = signing(2);
    let (_, client_public, _, server_public) = exchange();
    let kem = DecapsulationKey768::from_seed([7_u8; 64].into());
    let encapsulation = kem.encapsulation_key().to_bytes();

    let (mut connecting, offer) =
        Connecting::start(&client_public, &me.public_key(), encapsulation.as_slice()).unwrap();
    let (mut accepting, _) = Accepting::on_offer(&offer).unwrap();
    let (ciphertext, _) = kem
        .encapsulation_key()
        .encapsulate_deterministic(&[9_u8; 32].into());
    let answering = accepting
        .answer(&server_public, &signing(5), ciphertext.as_slice())
        .unwrap();

    assert!(matches!(
        connecting.on_answer(&answering.message, &signing(1).public_key()),
        Err(Error::UnexpectedIdentity)
    ));
}

#[test]
fn an_exchange_that_contributes_nothing_is_refused() {
    let me = signing(2);
    let vault = signing(1);
    let (_, client_public, _, server_public) = exchange();
    let kem = DecapsulationKey768::from_seed([7_u8; 64].into());
    let encapsulation = kem.encapsulation_key().to_bytes();

    let (mut connecting, offer) =
        Connecting::start(&client_public, &me.public_key(), encapsulation.as_slice()).unwrap();
    let (mut accepting, _) = Accepting::on_offer(&offer).unwrap();
    let (ciphertext, sent) = kem
        .encapsulation_key()
        .encapsulate_deterministic(&[9_u8; 32].into());
    let answering = accepting
        .answer(&server_public, &vault, ciphertext.as_slice())
        .unwrap();
    let answered = connecting
        .on_answer(&answering.message, &vault.public_key())
        .unwrap();

    assert!(matches!(
        connecting.finish(&answered, &[0; 32], false, Some(sent.to_vec()), &me),
        Err(Error::Handshake)
    ));
    assert!(matches!(
        connecting.finish(&answered, &[0; 32], true, None, &me),
        Err(Error::Handshake)
    ));
    assert!(matches!(
        accepting.finish(&answering, &[0; 32], false, sent.as_slice(), &[]),
        Err(Error::Handshake)
    ));
}

#[test]
fn a_proof_that_does_not_open_is_refused() {
    let vault = signing(1);
    let (_, client_public, server_secret, server_public) = exchange();
    let kem = DecapsulationKey768::from_seed([7_u8; 64].into());
    let encapsulation = kem.encapsulation_key().to_bytes();

    let (_, offer) =
        Connecting::start(&client_public, &signing(2).public_key(), encapsulation.as_slice())
            .unwrap();
    let (mut accepting, _) = Accepting::on_offer(&offer).unwrap();
    let (ciphertext, sent) = kem
        .encapsulation_key()
        .encapsulate_deterministic(&[9_u8; 32].into());
    let answering = accepting
        .answer(&server_public, &vault, ciphertext.as_slice())
        .unwrap();

    assert!(matches!(
        accepting.finish(
            &answering,
            &x25519(server_secret, client_public),
            true,
            sent.as_slice(),
            &[0_u8; 80],
        ),
        Err(Error::BadRecord)
    ));
}

#[test]
fn an_offer_that_does_not_read_is_refused() {
    assert!(matches!(Accepting::on_offer(&[0, 0, 0, 0]), Err(Error::Handshake)));
    assert!(matches!(Accepting::on_offer(&[]), Err(Error::Handshake)));
}

#[test]
fn a_record_sealed_one_way_opens_the_other() {
    let key = [6_u8; 32];
    let mut sealing = Direction::new(key);
    let mut opening = Direction::new(key);

    let mut wire = sealing.seal(b"hello").unwrap();
    wire.extend(sealing.seal(b"again").unwrap());

    let first = take_record(&mut wire).unwrap().unwrap();
    assert_eq!(opening.open(&first).unwrap(), b"hello");
    let second = take_record(&mut wire).unwrap().unwrap();
    assert_eq!(opening.open(&second).unwrap(), b"again");
    assert!(wire.is_empty());
    assert!(take_record(&mut wire).unwrap().is_none());
}

#[test]
fn a_record_opened_out_of_order_does_not_open() {
    let key = [6_u8; 32];
    let mut sealing = Direction::new(key);
    let mut opening = Direction::new(key);

    let _skipped = sealing.seal(b"first").unwrap();
    let mut second = sealing.seal(b"second").unwrap();
    let record = take_record(&mut second).unwrap().unwrap();

    assert!(matches!(opening.open(&record), Err(Error::BadRecord)));
}

#[test]
fn a_session_survives_its_keys_being_stepped() {
    let key = [8_u8; 32];
    let mut sealing = Direction::with_rekey_every(key, 2);
    let mut opening = Direction::with_rekey_every(key, 2);

    for round in 0..5_u8 {
        let mut wire = sealing.seal(&[round; 3]).unwrap();
        let record = take_record(&mut wire).unwrap().unwrap();
        assert_eq!(opening.open(&record).unwrap(), [round; 3]);
    }
}

#[test]
fn a_handshake_drawn_afresh_gives_both_ends_the_same_keys() {
    let me = signing(2);
    let vault = signing(1);

    let (mut connecting, offer, client_secrets) = Connecting::open(&me.public_key());
    let (mut accepting, offered) = Accepting::on_offer(&offer).unwrap();
    let (answering, server_secrets) = accepting.reply(&offered, &vault).unwrap();
    let answered = connecting
        .on_answer(&answering.message, &vault.public_key())
        .unwrap();
    let (sealed, client_keys) = connecting.complete(&answered, &client_secrets, &me).unwrap();
    let server_keys = accepting
        .conclude(&answering, &server_secrets, &offered.peer_ephemeral, &sealed)
        .unwrap();

    assert_eq!(client_keys.sealing, server_keys.opening);
    assert_eq!(client_keys.opening, server_keys.sealing);

    // A second handshake draws other secrets, and so other keys.
    let (_, second, _) = Connecting::open(&me.public_key());
    assert_ne!(second, offer);
}

#[test]
fn an_offer_whose_key_does_not_read_is_not_answered() {
    let me = signing(2);
    let (_, client_public, _, _) = exchange();
    let (_, offer) = Connecting::start(&client_public, &me.public_key(), &[0xFF; 1184]).unwrap();
    let (mut accepting, offered) = Accepting::on_offer(&offer).unwrap();

    assert!(matches!(accepting.reply(&offered, &signing(1)), Err(Error::Handshake)));
}

#[test]
fn an_exchange_key_is_the_secret_times_the_base_point() {
    let secret = [5_u8; 32];

    assert_eq!(exchange_public(&secret), x25519(secret, X25519_BASEPOINT_BYTES));
    let (shared, contributory) = exchange_shared(&secret, &x25519([6; 32], X25519_BASEPOINT_BYTES));
    assert_eq!(shared, x25519([6; 32], exchange_public(&secret)));
    assert!(contributory);
    // A point of small order forces the secret to nothing, which does not count.
    let (forced, contributory) = exchange_shared(&secret, &[0; 32]);
    assert_eq!(forced, [0; 32]);
    assert!(!contributory);
}

#[test]
fn the_kem_agrees_with_the_lengths_the_wire_assumes() {
    let (decapsulation, encapsulation) = MlKem768::generate_keypair();

    assert_eq!(encapsulation.to_bytes().len(), KEM_ENCAPSULATION_LEN);

    let (ciphertext, sent) = encapsulation.encapsulate();
    assert_eq!(ciphertext.len(), KEM_CIPHERTEXT_LEN);

    // And the two halves really do agree on the secret, which is the whole point.
    let received = decapsulation
        .decapsulate_slice(ciphertext.as_ref())
        .unwrap();
    assert_eq!(received, sent);
}

#[test]
fn a_direction_told_to_step_every_zero_records_never_steps() {
    let key = [9_u8; 32];
    let mut sealing = Direction::with_rekey_every(key, 0);
    let mut opening = Direction::with_rekey_every(key, 0);
    let mut stepping = Direction::with_rekey_every(key, 1);

    let mut first = sealing.seal(b"first").unwrap();
    let record = take_record(&mut first).unwrap().unwrap();
    assert_eq!(opening.open(&record).unwrap(), b"first");
    let _ = stepping.seal(b"first").unwrap();

    for round in 0..5_u8 {
        let mut wire = sealing.seal(&[round; 4]).unwrap();
        let record = take_record(&mut wire).unwrap().unwrap();
        assert_eq!(opening.open(&record).unwrap(), [round; 4]);
    }
}

//! The steps a handshake takes, at either end, between the messages that cross.
//!
//! The end that speaks first offers a fresh exchange key, its identity and a key to encapsulate a
//! secret to; the end spoken to answers with its own exchange key, its identity, the encapsulated
//! secret and a signature over the transcript; the speaking end checks the answer came from the
//! identity it expected, proves its own identity over the transcript, and seals that proof under
//! a key drawn from both secrets. Both ends then draw the session's keys from the whole
//! transcript, each sealing with the key the other opens with.
//!
//! Each step is here twice: once taking the fresh keys, the exchanged secret and the encapsulated
//! one as they are handed in, which says exactly what the step makes of them, and once drawing
//! them itself.
use vstd::prelude::*;
use vstd::string::StringSliceAdditionalSpecFns;

use crate::auth::channel::{
    folded_bytes, hkdf_okm_of, lemma_message_round_trip, hkdf_prk_of, label, message_bytes, message_fields, nonce_bytes,
    open_once, opened_of, seal_once, sealed_of, Answer, Handshake, Offer, Schedule,
    KEM_CIPHERTEXT_LEN, KEM_ENCAPSULATION_LEN, SUITE,
};
use crate::auth::error::Error;
use crate::auth::exchange::{
    basepoint, contributes, exchange_public, exchange_shared, kem_decapsulate, kem_encapsulate,
    kem_fresh_seed, kem_key_valid, kem_public, kem_public_of, kem_shared_of, x25519_fresh_secret,
    x25519_of,
};
use crate::bytes::copied;
use crate::auth::key::{
    ed25519_public_of, ed25519_signature_of, fingerprint_preimage, sha256_of, verdict,
    KeyAlgorithm, PublicKey, Signature, SigningKey,
};

verus! {

/// What a transcript holds before anything crosses: the label and the suite.
pub open spec fn opening_transcript() -> Seq<u8> {
    folded_bytes(label()) + folded_bytes(seq![SUITE])
}

/// What a transcript holds once an offer of `ephemeral`, `identity` and `encapsulation` is in.
pub open spec fn offered_transcript(ephemeral: Seq<u8>, identity: Seq<u8>, encapsulation: Seq<u8>) -> Seq<u8> {
    opening_transcript() + folded_bytes(ephemeral) + folded_bytes(identity) + folded_bytes(
        encapsulation,
    )
}

/// The keys one end of a session works with: the one it seals with and the one it opens with.
pub struct SessionKeys {
    /// The key this end seals its records with.
    pub sealing: [u8; 32],
    /// The key this end opens the other end's records with.
    pub opening: [u8; 32],
}

/// The secret a handshake's own keys are drawn from: both shared secrets, under the digest the
/// answer's proof is made over.
pub open spec fn handshake_secret(answering: Seq<u8>, exchanged: Seq<u8>, encapsulated: Seq<u8>) -> Seq<u8> {
    hkdf_prk_of(answering, exchanged + encapsulated)
}

/// The secret a session's keys are drawn from: the handshake's secret, under the digest of the
/// whole transcript.
pub open spec fn session_secret(finished: Seq<u8>, handshake: Seq<u8>) -> Seq<u8> {
    hkdf_prk_of(finished, handshake)
}

/// The proof the speaking end makes with the secret `me_seed`, once its transcript holds `folded`
/// and the answer's proof `answer_proof` is in.
pub open spec fn client_proof_of(folded: Seq<u8>, answer_proof: Seq<u8>, me_seed: Seq<u8>) -> Seq<u8> {
    ed25519_signature_of(me_seed, sha256_of(folded + folded_bytes(answer_proof)))
}

/// The key the speaking end's proof is sealed under: drawn from the answer's digest and both
/// shared secrets.
pub open spec fn proof_key(answering: Seq<u8>, exchanged: Seq<u8>, decapsulated: Seq<u8>) -> Seq<u8> {
    hkdf_okm_of(handshake_secret(answering, exchanged, decapsulated), "hs to server".spec_bytes())
}

/// What the speaking end sends and keeps once its transcript holds `folded` and it read an answer
/// proved by `answer_proof` over `answering`: its own proof, made with the secret `me_seed` and
/// sealed under the handshake's key, and the keys it seals and opens the session's records with.
/// The handshake's secret is drawn from the exchanged secret and the decapsulated one.
pub open spec fn client_drawn(
    folded: Seq<u8>,
    answering: Seq<u8>,
    answer_proof: Seq<u8>,
    exchanged: Seq<u8>,
    decapsulated: Seq<u8>,
    me_seed: Seq<u8>,
) -> (Seq<u8>, Seq<u8>, Seq<u8>) {
    let secret = handshake_secret(answering, exchanged, decapsulated);
    let proving = folded + folded_bytes(answer_proof);
    let ours = client_proof_of(folded, answer_proof, me_seed);
    let session = session_secret(sha256_of(proving + folded_bytes(ours)), secret);
    (
        sealed_of(proof_key(answering, exchanged, decapsulated), nonce_bytes(0), ours),
        hkdf_okm_of(session, "app to server".spec_bytes()),
        hkdf_okm_of(session, "app to client".spec_bytes()),
    )
}

/// What holds of the proof the speaking end sealed, `sealed`, as it made it: it opens under the
/// key it was sealed with as the proof itself, which is a signature's length and one the speaking
/// end's key verifies.
pub open spec fn proof_holds(
    folded: Seq<u8>,
    answering: Seq<u8>,
    answer_proof: Seq<u8>,
    exchanged: Seq<u8>,
    decapsulated: Seq<u8>,
    me_seed: Seq<u8>,
    sealed: Seq<u8>,
) -> bool {
    let ours = client_proof_of(folded, answer_proof, me_seed);
    &&& opened_of(proof_key(answering, exchanged, decapsulated), nonce_bytes(0), sealed) == Some(ours)
    &&& ours.len() == 64
    &&& verdict(
        (KeyAlgorithm::Ed25519, ed25519_public_of(me_seed)),
        sha256_of(folded + folded_bytes(answer_proof)),
        (KeyAlgorithm::Ed25519, ours),
    ) is None
}

/// The secrets the speaking end draws for a handshake: its exchange secret, and the seed of the
/// key a secret is encapsulated to.
pub struct ClientSecrets {
    /// The X25519 secret.
    exchange: [u8; 32],
    /// The ML-KEM-768 seed.
    seed: [u8; 64],
}

impl ClientSecrets {
    /// The X25519 secret.
    pub closed spec fn exchange_spec(&self) -> Seq<u8> {
        self.exchange@
    }

    /// The ML-KEM-768 seed.
    pub closed spec fn seed_spec(&self) -> Seq<u8> {
        self.seed@
    }
}

/// The end that speaks first, partway through a handshake.
pub struct Connecting {
    /// The transcript so far.
    handshake: Handshake,
}

/// What the speaking end took from an answer that checked out.
pub struct Answered {
    /// The identity the other end proved.
    pub peer: PublicKey,
    /// The other end's fresh exchange key.
    pub peer_ephemeral: [u8; 32],
    /// The secret it encapsulated.
    pub ciphertext: Vec<u8>,
    /// The digest its proof is over.
    pub answering: [u8; 32],
    /// Its proof.
    pub proof: Signature,
}

/// What the speaking end makes of the answer `message`, where its transcript holds `folded` and
/// it expects the identity `expected`: the digest the answer's proof is over, or what is wrong
/// with it, in the order it is checked.
pub open spec fn answer_outcome(folded: Seq<u8>, message: Seq<u8>, expected: (KeyAlgorithm, Seq<u8>)) -> Result<
    Seq<u8>,
    Error,
> {
    match message_fields(message, 4) {
        None => Err(Error::Handshake),
        Some(fields) => if fields[0].len() != 32 {
            Err(Error::Handshake)
        } else if fields[1].len() != 32 {
            Err(Error::Malformed)
        } else if fields[2].len() != KEM_CIPHERTEXT_LEN {
            Err(Error::Handshake)
        } else if sha256_of(fingerprint_preimage(KeyAlgorithm::Ed25519, fields[1])) != sha256_of(
            fingerprint_preimage(expected.0, expected.1),
        ) {
            Err(Error::UnexpectedIdentity)
        } else {
            let digest = sha256_of(
                folded + folded_bytes(fields[0]) + folded_bytes(fields[1]) + folded_bytes(fields[2]),
            );
            if fields[3].len() != 64 {
                Err(Error::Malformed)
            } else {
                match verdict(
                    (KeyAlgorithm::Ed25519, fields[1]),
                    digest,
                    (KeyAlgorithm::Ed25519, fields[3]),
                ) {
                    Some(error) => Err(error),
                    None => Ok(digest),
                }
            }
        },
    }
}

impl Connecting {
    /// What the transcript holds.
    pub closed spec fn folded(&self) -> Seq<u8> {
        self.handshake.folded()
    }

    /// Starts a handshake with the fresh exchange key `ephemeral`, the identity `identity` and
    /// the encapsulation key `encapsulation`: the state to go on from, and the offer to send.
    ///
    /// An encapsulation key longer than a field can say is `Error::Handshake`.
    pub fn start(ephemeral: &[u8; 32], identity: &PublicKey, encapsulation: &[u8]) -> (started: Result<
        (Connecting, Vec<u8>),
        Error,
    >)
        ensures
            started is Ok <==> encapsulation@.len() <= u16::MAX,
            started matches Ok((state, offer)) ==> offer@ == message_bytes(
                seq![ephemeral@, identity@.1, encapsulation@],
            ) && state.folded() == offered_transcript(ephemeral@, identity@.1, encapsulation@),
            started matches Err(error) ==> error is Handshake,
    {
        let mut handshake = Handshake::new(SUITE);
        let offer = match Offer::encode(ephemeral, identity, encapsulation) {
            Ok(offer) => offer,
            Err(error) => {
                return Err(error);
            },
        };
        handshake.offer(ephemeral.as_slice(), identity.as_bytes(), encapsulation);
        Ok((Connecting { handshake }, offer))
    }

    /// Reads the answer `message`, which must come from `expected`: the answer's parts, and the
    /// transcript moved on past it.
    ///
    /// An answer that does not read is `Error::Handshake` or `Error::Malformed`, one from another
    /// identity `Error::UnexpectedIdentity`, and one whose proof does not verify what the
    /// verification said; see [`answer_outcome`].
    pub fn on_answer(&mut self, message: &[u8], expected: &PublicKey) -> (answered: Result<
        Answered,
        Error,
    >)
        ensures
            answered is Ok <==> answer_outcome(old(self).folded(), message@, expected@) is Ok,
            answered matches Err(error) ==> answer_outcome(old(self).folded(), message@, expected@)
                == Err::<Seq<u8>, Error>(error),
            answered matches Ok(a) ==> {
                let fields = message_fields(message@, 4)->0;
                &&& answer_outcome(old(self).folded(), message@, expected@) == Ok::<Seq<u8>, Error>(
                    a.answering@,
                )
                &&& a.peer@ == (KeyAlgorithm::Ed25519, fields[1])
                &&& a.peer_ephemeral@ == fields[0]
                &&& a.ciphertext@ == fields[2]
                &&& a.proof@ == (KeyAlgorithm::Ed25519, fields[3])
                &&& final(self).folded() == old(self).folded() + folded_bytes(fields[0])
                    + folded_bytes(fields[1]) + folded_bytes(fields[2])
            },
    {
        let answer = match Answer::decode(message) {
            Ok(answer) => answer,
            Err(error) => {
                return Err(error);
            },
        };
        let peer_ephemeral = match answer.ephemeral() {
            Ok(key) => key,
            Err(error) => {
                return Err(error);
            },
        };
        let peer = match answer.identity() {
            Ok(key) => key,
            Err(error) => {
                return Err(error);
            },
        };
        let ciphertext = match answer.ciphertext() {
            Ok(ciphertext) => ciphertext,
            Err(error) => {
                return Err(error);
            },
        };
        if !peer.fingerprint().same_as(&expected.fingerprint()) {
            return Err(Error::UnexpectedIdentity);
        }
        let answering = self.handshake.answer(
            peer_ephemeral.as_slice(),
            peer.as_bytes(),
            ciphertext.as_slice(),
        );
        let proof = match answer.signature() {
            Ok(signature) => signature,
            Err(error) => {
                return Err(error);
            },
        };
        match peer.verify(answering.as_slice(), &proof) {
            Ok(()) => {},
            Err(error) => {
                return Err(error);
            },
        }
        Ok(Answered { peer, peer_ephemeral, ciphertext, answering, proof })
    }

    /// Finishes the handshake, given the secret the exchange with the answer's key came to
    /// (`exchanged`), whether the exchange contributed to it, and what the answer's ciphertext
    /// decapsulates to, where it does: the proof of this end's identity, sealed, to send, and the
    /// session's keys.
    ///
    /// An exchange that contributed nothing, and a ciphertext that does not decapsulate, are
    /// `Error::Handshake`: a handshake that either would weaken is not one.
    pub fn finish(
        &mut self,
        answered: &Answered,
        exchanged: &[u8; 32],
        contributory: bool,
        decapsulated: Option<Vec<u8>>,
        me: &SigningKey,
    ) -> (finished: Result<(Vec<u8>, SessionKeys), Error>)
        ensures
            !contributory ==> finished == Err::<(Vec<u8>, SessionKeys), Error>(Error::Handshake),
            decapsulated is None ==> finished == Err::<(Vec<u8>, SessionKeys), Error>(
                Error::Handshake,
            ),
            finished matches Err(error) ==> error is Handshake,
            finished is Ok <==> contributory && decapsulated is Some,
            finished matches Ok((sealed, keys)) ==> contributory && decapsulated is Some && (
            sealed@, keys.sealing@, keys.opening@) == client_drawn(
                old(self).folded(),
                answered.answering@,
                answered.proof@.1,
                exchanged@,
                decapsulated->0@,
                me.seed_spec(),
            ) && proof_holds(
                old(self).folded(),
                answered.answering@,
                answered.proof@.1,
                exchanged@,
                decapsulated->0@,
                me.seed_spec(),
                sealed@,
            ),
    {
        if !contributory {
            return Err(Error::Handshake);
        }
        let encapsulated = match decapsulated {
            Some(secret) => secret,
            None => {
                return Err(Error::Handshake);
            },
        };
        let shared = crate::auth::channel::hybrid_shared(exchanged, encapsulated.as_slice());
        let handshake_keys = Schedule::extract(answered.answering.as_slice(), shared.as_slice());
        let to_server = handshake_keys.expand("hs to server");
        let proving = self.handshake.server_proof(answered.proof.as_bytes());
        let ours = me.sign(proving.as_slice());
        proof {
            assert(me.algorithm_spec() == KeyAlgorithm::Ed25519) by {
                match me.algorithm_spec() {
                    KeyAlgorithm::Ed25519 => {},
                }
            }
        }
        let sealed = match seal_once(&to_server, ours.as_bytes()) {
            Ok(sealed) => sealed,
            Err(error) => {
                return Err(error);
            },
        };
        let finished = self.handshake.client_proof(ours.as_bytes());
        let session = Schedule::extract(finished.as_slice(), handshake_keys.bytes().as_slice());
        let keys = SessionKeys {
            sealing: session.expand("app to server"),
            opening: session.expand("app to client"),
        };
        Ok((sealed, keys))
    }

    /// Starts a handshake as `identity` with secrets drawn afresh: the state to go on from, the
    /// offer to send, and the secrets the handshake is finished with.
    pub fn open(identity: &PublicKey) -> (opened: (Connecting, Vec<u8>, ClientSecrets))
        ensures
            ({
                let (state, offer, secrets) = opened;
                let ephemeral = x25519_of(secrets.exchange_spec(), basepoint());
                let encapsulation = kem_public_of(secrets.seed_spec());
                &&& offer@ == message_bytes(seq![ephemeral, identity@.1, encapsulation])
                &&& state.folded() == offered_transcript(ephemeral, identity@.1, encapsulation)
            }),
    {
        let exchange = x25519_fresh_secret();
        let seed = kem_fresh_seed();
        let ephemeral = exchange_public(&exchange);
        let encapsulation = kem_public(&seed);
        let (state, offer) = Connecting::start(&ephemeral, identity, encapsulation.as_slice()).unwrap();
        (state, offer, ClientSecrets { exchange, seed })
    }

    /// Finishes a handshake begun by [`Connecting::open`], once the answer `answered` checked
    /// out: the exchange is made with the answer's key and its ciphertext decapsulated with the
    /// drawn secrets, and the rest is [`Connecting::finish`].
    pub fn complete(&mut self, answered: &Answered, secrets: &ClientSecrets, me: &SigningKey) -> (finished:
        Result<(Vec<u8>, SessionKeys), Error>)
        ensures
            ({
                let exchanged = x25519_of(secrets.exchange_spec(), answered.peer_ephemeral@);
                &&& !contributes(exchanged) ==> finished == Err::<(Vec<u8>, SessionKeys), Error>(
                    Error::Handshake,
                )
                &&& answered.ciphertext@.len() != KEM_CIPHERTEXT_LEN ==> finished == Err::<
                    (Vec<u8>, SessionKeys),
                    Error,
                >(Error::Handshake)
                &&& finished matches Err(error) ==> error is Handshake
                &&& finished is Ok <==> contributes(exchanged) && answered.ciphertext@.len()
                    == KEM_CIPHERTEXT_LEN
                &&& finished matches Ok((sealed, keys)) ==> contributes(exchanged)
                    && answered.ciphertext@.len() == KEM_CIPHERTEXT_LEN && (
                    sealed@,
                    keys.sealing@,
                    keys.opening@,
                ) == client_drawn(
                    old(self).folded(),
                    answered.answering@,
                    answered.proof@.1,
                    exchanged,
                    kem_shared_of(secrets.seed_spec(), answered.ciphertext@),
                    me.seed_spec(),
                ) && proof_holds(
                    old(self).folded(),
                    answered.answering@,
                    answered.proof@.1,
                    exchanged,
                    kem_shared_of(secrets.seed_spec(), answered.ciphertext@),
                    me.seed_spec(),
                    sealed@,
                )
            }),
    {
        let (exchanged, contributory) = exchange_shared(&secrets.exchange, &answered.peer_ephemeral);
        let decapsulated = match kem_decapsulate(&secrets.seed, answered.ciphertext.as_slice()) {
            Some(shared) => Some(copied(shared.as_slice())),
            None => None,
        };
        self.finish(answered, &exchanged, contributory, decapsulated, me)
    }
}

/// The secrets the end spoken to draws for a handshake: its exchange secret, and the secret it
/// encapsulated, with the ciphertext it crosses as.
pub struct ServerSecrets {
    /// The X25519 secret.
    exchange: [u8; 32],
    /// The encapsulated secret's ciphertext.
    ciphertext: Vec<u8>,
    /// The encapsulated secret.
    shared: [u8; 32],
}

impl ServerSecrets {
    /// The X25519 secret.
    pub closed spec fn exchange_spec(&self) -> Seq<u8> {
        self.exchange@
    }

    /// The encapsulated secret's ciphertext.
    pub closed spec fn ciphertext_spec(&self) -> Seq<u8> {
        self.ciphertext@
    }

    /// The encapsulated secret.
    pub closed spec fn shared_spec(&self) -> Seq<u8> {
        self.shared@
    }
}

/// The end spoken to, partway through a handshake.
pub struct Accepting {
    /// The transcript so far.
    handshake: Handshake,
    /// The identity the speaking end offered.
    peer: PublicKey,
}

/// What the end spoken to took from an offer that read.
pub struct Offered {
    /// The speaking end's fresh exchange key.
    pub peer_ephemeral: [u8; 32],
    /// The key a secret is to be encapsulated to.
    pub encapsulation: Vec<u8>,
}

/// What the end spoken to makes of the offer `message`: nothing where it reads, and otherwise
/// what is wrong with it, in the order it is checked.
pub open spec fn offer_fault(message: Seq<u8>) -> Option<Error> {
    match message_fields(message, 3) {
        None => Some(Error::Handshake),
        Some(fields) => if fields[0].len() != 32 {
            Some(Error::Handshake)
        } else if fields[1].len() != 32 {
            Some(Error::Malformed)
        } else if fields[2].len() != KEM_ENCAPSULATION_LEN {
            Some(Error::Handshake)
        } else {
            None
        },
    }
}

/// The answer the end spoken to sends, and what it proved.
pub struct Answering {
    /// The answer, as it crosses.
    pub message: Vec<u8>,
    /// The digest the proof is over.
    pub answering: [u8; 32],
    /// The proof: this end's signature over that digest.
    pub proof: Signature,
}

/// What the end spoken to makes of the speaking end's sealed proof `message`, given the key it
/// was sealed under, what the transcript holds once the answer's proof is in (`proving`), and
/// the identity offered: nothing where it is that identity's proof, and otherwise what is wrong.
pub open spec fn proof_fault(key: Seq<u8>, message: Seq<u8>, proving: Seq<u8>, peer: (KeyAlgorithm, Seq<u8>)) -> Option<Error> {
    match opened_of(key, nonce_bytes(0), message) {
        None => Some(Error::BadRecord),
        Some(opened) => if opened.len() != 64 {
            Some(Error::Malformed)
        } else {
            verdict(peer, sha256_of(proving), (KeyAlgorithm::Ed25519, opened))
        },
    }
}

/// What the end spoken to makes of the speaking end's sealed proof `message`, once its transcript
/// holds `folded`, the identity `peer` was offered and it answered with `answer_proof` over
/// `answering`: the keys it seals and opens the session's records with, or what is wrong with the
/// proof. The handshake's secret is drawn from the exchanged secret and the encapsulated one.
pub open spec fn server_outcome(
    folded: Seq<u8>,
    peer: (KeyAlgorithm, Seq<u8>),
    answering: Seq<u8>,
    answer_proof: Seq<u8>,
    exchanged: Seq<u8>,
    encapsulated: Seq<u8>,
    message: Seq<u8>,
) -> Result<(Seq<u8>, Seq<u8>), Error> {
    let secret = handshake_secret(answering, exchanged, encapsulated);
    let key = hkdf_okm_of(secret, "hs to server".spec_bytes());
    let proving = folded + folded_bytes(answer_proof);
    match proof_fault(key, message, proving, peer) {
        Some(error) => Err(error),
        None => {
            let ours = opened_of(key, nonce_bytes(0), message)->0;
            let session = session_secret(sha256_of(proving + folded_bytes(ours)), secret);
            Ok(
                (
                    hkdf_okm_of(session, "app to client".spec_bytes()),
                    hkdf_okm_of(session, "app to server".spec_bytes()),
                ),
            )
        },
    }
}

impl Accepting {
    /// What the transcript holds.
    pub closed spec fn folded(&self) -> Seq<u8> {
        self.handshake.folded()
    }

    /// The identity the speaking end offered.
    pub closed spec fn peer_spec(&self) -> (KeyAlgorithm, Seq<u8>) {
        self.peer@
    }

    /// Reads the offer `message`: the state to go on from, and the offer's parts.
    pub fn on_offer(message: &[u8]) -> (accepted: Result<(Accepting, Offered), Error>)
        ensures
            accepted is Ok <==> offer_fault(message@) is None,
            accepted matches Err(error) ==> offer_fault(message@) == Some(error),
            accepted matches Ok((state, offered)) ==> {
                let fields = message_fields(message@, 3)->0;
                &&& state.folded() == offered_transcript(fields[0], fields[1], fields[2])
                &&& state.peer_spec() == (KeyAlgorithm::Ed25519, fields[1])
                &&& offered.peer_ephemeral@ == fields[0]
                &&& offered.encapsulation@ == fields[2]
            },
    {
        let offer = match Offer::decode(message) {
            Ok(offer) => offer,
            Err(error) => {
                return Err(error);
            },
        };
        let peer_ephemeral = match offer.ephemeral() {
            Ok(key) => key,
            Err(error) => {
                return Err(error);
            },
        };
        let peer = match offer.identity() {
            Ok(key) => key,
            Err(error) => {
                return Err(error);
            },
        };
        let encapsulation = match offer.encapsulation() {
            Ok(key) => key,
            Err(error) => {
                return Err(error);
            },
        };
        let mut handshake = Handshake::new(SUITE);
        handshake.offer(peer_ephemeral.as_slice(), peer.as_bytes(), offer.encapsulation.as_slice());
        Ok((Accepting { handshake, peer }, Offered { peer_ephemeral, encapsulation }))
    }

    /// Answers with the fresh exchange key `ephemeral` and the secret encapsulated to the offer's
    /// key (`ciphertext`), proving `me` over the transcript.
    ///
    /// A ciphertext longer than a field can say is `Error::Handshake`.
    pub fn answer(&mut self, ephemeral: &[u8; 32], me: &SigningKey, ciphertext: &[u8]) -> (answered:
        Result<Answering, Error>)
        ensures
            answered is Ok <==> ciphertext@.len() <= u16::MAX,
            answered matches Err(error) ==> error is Handshake,
            answered matches Ok(a) ==> {
                let identity = ed25519_public_of(me.seed_spec());
                let folded = old(self).folded() + folded_bytes(ephemeral@) + folded_bytes(identity)
                    + folded_bytes(ciphertext@);
                &&& final(self).folded() == folded
                &&& a.answering@ == sha256_of(folded)
                &&& a.proof@ == (me.algorithm_spec(), ed25519_signature_of(
                    me.seed_spec(),
                    sha256_of(folded),
                ))
                &&& a.message@ == message_bytes(
                    seq![ephemeral@, identity, ciphertext@, a.proof@.1],
                )
            },
    {
        let identity = me.public_key();
        let answering = self.handshake.answer(ephemeral.as_slice(), identity.as_bytes(), ciphertext);
        let proof = me.sign(answering.as_slice());
        let message = match Answer::encode(ephemeral, &identity, ciphertext, &proof) {
            Ok(message) => message,
            Err(error) => {
                return Err(error);
            },
        };
        Ok(Answering { message, answering, proof })
    }

    /// Finishes the handshake, given the secret the exchange with the offer's key came to
    /// (`exchanged`), whether the exchange contributed to it, the secret this end encapsulated,
    /// what it answered, and the speaking end's sealed proof (`message`): the session's keys.
    ///
    /// An exchange that contributed nothing is `Error::Handshake`; a proof that does not open,
    /// read or verify is what [`proof_fault`] says.
    pub fn finish(
        &mut self,
        answered: &Answering,
        exchanged: &[u8; 32],
        contributory: bool,
        encapsulated: &[u8],
        message: &[u8],
    ) -> (finished: Result<SessionKeys, Error>)
        ensures
            !contributory ==> finished == Err::<SessionKeys, Error>(Error::Handshake),
            contributory ==> {
                let outcome = server_outcome(
                    old(self).folded(),
                    old(self).peer_spec(),
                    answered.answering@,
                    answered.proof@.1,
                    exchanged@,
                    encapsulated@,
                    message@,
                );
                &&& finished matches Ok(keys) ==> outcome == Ok::<(Seq<u8>, Seq<u8>), Error>(
                    (keys.sealing@, keys.opening@),
                )
                &&& finished matches Err(error) ==> outcome == Err::<(Seq<u8>, Seq<u8>), Error>(error)
            },
    {
        if !contributory {
            return Err(Error::Handshake);
        }
        let shared = crate::auth::channel::hybrid_shared(exchanged, encapsulated);
        let handshake_keys = Schedule::extract(answered.answering.as_slice(), shared.as_slice());
        let to_server = handshake_keys.expand("hs to server");
        let proving = self.handshake.server_proof(answered.proof.as_bytes());
        let opened = match open_once(&to_server, message) {
            Ok(opened) => opened,
            Err(error) => {
                return Err(error);
            },
        };
        let ours = match Signature::from_bytes(KeyAlgorithm::Ed25519, opened) {
            Ok(signature) => signature,
            Err(error) => {
                return Err(error);
            },
        };
        match self.peer.verify(proving.as_slice(), &ours) {
            Ok(()) => {},
            Err(error) => {
                return Err(error);
            },
        }
        let finished = self.handshake.client_proof(ours.as_bytes());
        let session = Schedule::extract(finished.as_slice(), handshake_keys.bytes().as_slice());
        Ok(
            SessionKeys {
                sealing: session.expand("app to client"),
                opening: session.expand("app to server"),
            },
        )
    }

    /// Answers the offer `offered` as `me` with secrets drawn afresh: a fresh exchange key, and a
    /// fresh secret encapsulated to the offer's key. The answer, and the secrets the handshake is
    /// finished with.
    ///
    /// An offer whose key does not read as an ML-KEM-768 key is `Error::Handshake`.
    pub fn reply(&mut self, offered: &Offered, me: &SigningKey) -> (replied: Result<(Answering, ServerSecrets), Error>)
        ensures
            replied is Ok <==> kem_key_valid(offered.encapsulation@),
            replied matches Err(error) ==> error is Handshake,
            replied is Err ==> final(self).folded() == old(self).folded(),
            replied matches Ok((a, secrets)) ==> {
                let ephemeral = x25519_of(secrets.exchange_spec(), basepoint());
                let identity = ed25519_public_of(me.seed_spec());
                let folded = old(self).folded() + folded_bytes(ephemeral) + folded_bytes(identity)
                    + folded_bytes(secrets.ciphertext_spec());
                &&& secrets.ciphertext_spec().len() == KEM_CIPHERTEXT_LEN
                &&& final(self).folded() == folded
                &&& a.answering@ == sha256_of(folded)
                &&& a.proof@ == (me.algorithm_spec(), ed25519_signature_of(
                    me.seed_spec(),
                    sha256_of(folded),
                ))
                &&& a.message@ == message_bytes(
                    seq![ephemeral, identity, secrets.ciphertext_spec(), a.proof@.1],
                )
            },
    {
        let (ciphertext, shared) = match kem_encapsulate(offered.encapsulation.as_slice()) {
            Some(encapsulated) => encapsulated,
            None => {
                return Err(Error::Handshake);
            },
        };
        let exchange = x25519_fresh_secret();
        let ephemeral = exchange_public(&exchange);
        let answering = self.answer(&ephemeral, me, ciphertext.as_slice()).unwrap();
        Ok((answering, ServerSecrets { exchange, ciphertext, shared }))
    }

    /// Finishes a handshake answered by [`Accepting::reply`], given the speaking end's fresh
    /// exchange key `peer_ephemeral` and its sealed proof `message`: the exchange is made with the
    /// drawn secret, and the rest is [`Accepting::finish`].
    pub fn conclude(
        &mut self,
        answered: &Answering,
        secrets: &ServerSecrets,
        peer_ephemeral: &[u8; 32],
        message: &[u8],
    ) -> (finished: Result<SessionKeys, Error>)
        ensures
            ({
                let exchanged = x25519_of(secrets.exchange_spec(), peer_ephemeral@);
                let outcome = server_outcome(
                    old(self).folded(),
                    old(self).peer_spec(),
                    answered.answering@,
                    answered.proof@.1,
                    exchanged,
                    secrets.shared_spec(),
                    message@,
                );
                &&& !contributes(exchanged) ==> finished == Err::<SessionKeys, Error>(Error::Handshake)
                &&& contributes(exchanged) ==> (finished matches Ok(keys) ==> outcome == Ok::<
                    (Seq<u8>, Seq<u8>),
                    Error,
                >((keys.sealing@, keys.opening@)))
                &&& contributes(exchanged) ==> (finished matches Err(error) ==> outcome == Err::<
                    (Seq<u8>, Seq<u8>),
                    Error,
                >(error))
            }),
    {
        let (exchanged, contributory) = exchange_shared(&secrets.exchange, peer_ephemeral);
        self.finish(answered, &exchanged, contributory, secrets.shared.as_slice(), message)
    }

    /// The identity the speaking end offered.
    pub fn peer(&self) -> (peer: &PublicKey)
        ensures
            peer@ == self.peer_spec(),
    {
        &self.peer
    }
}

/// Both ends of a handshake hold the same transcript once the answer is in: what the speaking end
/// folds from the answer it read, after its own offer, is what the end spoken to folds from the
/// offer it read, before its own answer. Keys drawn from one transcript and the same secrets are
/// the same keys, so each end opens with the key the other seals with.
pub proof fn lemma_transcripts_agree(
    ephemeral: Seq<u8>,
    identity: Seq<u8>,
    encapsulation: Seq<u8>,
    answer_ephemeral: Seq<u8>,
    answer_identity: Seq<u8>,
    ciphertext: Seq<u8>,
    proof: Seq<u8>,
)
    requires
        ephemeral.len() <= u16::MAX,
        identity.len() <= u16::MAX,
        encapsulation.len() <= u16::MAX,
        answer_ephemeral.len() <= u16::MAX,
        answer_identity.len() <= u16::MAX,
        ciphertext.len() <= u16::MAX,
        proof.len() <= u16::MAX,
    ensures
        ({
            let offer_read = message_fields(message_bytes(seq![ephemeral, identity, encapsulation]), 3)->0;
            let answer_read = message_fields(
                message_bytes(seq![answer_ephemeral, answer_identity, ciphertext, proof]),
                4,
            )->0;
            offered_transcript(ephemeral, identity, encapsulation) + folded_bytes(answer_read[0])
                + folded_bytes(answer_read[1]) + folded_bytes(answer_read[2]) == offered_transcript(
                offer_read[0],
                offer_read[1],
                offer_read[2],
            ) + folded_bytes(answer_ephemeral) + folded_bytes(answer_identity) + folded_bytes(
                ciphertext,
            )
        }),
{
    let offer = seq![ephemeral, identity, encapsulation];
    let answer = seq![answer_ephemeral, answer_identity, ciphertext, proof];
    assert forall|i: int| 0 <= i < offer.len() implies (#[trigger] offer[i]).len() <= u16::MAX by {}
    assert forall|i: int| 0 <= i < answer.len() implies (#[trigger] answer[i]).len() <= u16::MAX by {}
    lemma_message_round_trip(offer);
    lemma_message_round_trip(answer);
}

/// Both ends of a handshake draw the same keys, each sealing with the key the other opens with.
/// Where the end spoken to holds the transcript the speaking end held (see
/// [`lemma_transcripts_agree`]) and the same two shared secrets, and reads the proof the speaking
/// end sealed the way the speaking end seals it, it accepts that proof as the speaking end's and
/// draws the speaking end's keys the other way round.
pub proof fn lemma_both_ends_draw_the_same_keys(
    folded: Seq<u8>,
    answering: Seq<u8>,
    answer_proof: Seq<u8>,
    exchanged: Seq<u8>,
    shared: Seq<u8>,
    me_seed: Seq<u8>,
)
    requires
        proof_holds(
            folded,
            answering,
            answer_proof,
            exchanged,
            shared,
            me_seed,
            client_drawn(folded, answering, answer_proof, exchanged, shared, me_seed).0,
        ),
    ensures
        ({
            let (sealed, sealing, opening) = client_drawn(
                folded,
                answering,
                answer_proof,
                exchanged,
                shared,
                me_seed,
            );
            server_outcome(
                folded,
                (KeyAlgorithm::Ed25519, ed25519_public_of(me_seed)),
                answering,
                answer_proof,
                exchanged,
                shared,
                sealed,
            ) == Ok::<(Seq<u8>, Seq<u8>), Error>((opening, sealing))
        }),
{
}

} // verus!

//! What a secure session says on the wire, and what each end makes of it.
//!
//! A session opens with a handshake of two messages, an offer and an answer, each a suite byte
//! and then fields of a 16-bit length and the bytes; both ends fold every field into a
//! transcript that a signature is made over, so each proves its identity over the very bytes
//! that crossed. After that, data crosses as records: a 32-bit length and a sealed payload, each
//! sealed under a counter that both ends keep in step and a key that both ratchet forward at the
//! same records.
//!
//! The stream, and the fresh secrets a handshake is made with, are the caller's; what is here is
//! every byte that crosses and every decision made from one.
use vstd::prelude::*;

use chacha20poly1305::aead::{Aead, KeyInit};

use super::error::Error;
use super::key::{sha256, sha256_of, KeyAlgorithm, PublicKey, Signature};
use vstd::string::StringSliceAdditionalSpecFns;
use crate::bytes::{be_bytes, copied, push_all, push_u64};

verus! {

/// The most plain bytes one record carries.
pub const MAX_PLAINTEXT: usize = 16384;

/// How long the tag sealing adds to a record is.
pub const TAG_LEN: usize = 16;

/// The most bytes one sealed record is.
pub const MAX_CIPHERTEXT: usize = 16400;

/// The most bytes one handshake message is.
pub const MAX_HANDSHAKE: usize = 8192;

/// How many records are sealed under one key before it is ratcheted forward.
pub const REKEY_EVERY: u64 = 4294967296;

/// How long an ML-KEM-768 encapsulation key is.
pub const KEM_ENCAPSULATION_LEN: usize = 1184;

/// How long an ML-KEM-768 ciphertext is.
pub const KEM_CIPHERTEXT_LEN: usize = 1088;

/// The suite a handshake says it speaks.
pub const SUITE: u8 = 1;

/// The two bytes a 16-bit number is written as, most significant first.
pub open spec fn be16(value: u16) -> Seq<u8> {
    seq![(value / 256) as u8, (value % 256) as u8]
}

/// The four bytes a 32-bit number is written as, most significant first.
pub open spec fn be32(value: u32) -> Seq<u8> {
    seq![(value / 16777216) as u8, ((value / 65536) % 256) as u8, ((value / 256) % 256) as u8, (value % 256) as u8]
}

/// The number the first four of `bytes` stand for, most significant first.
pub open spec fn be32_value(bytes: Seq<u8>) -> int {
    bytes[0] * 16777216 + bytes[1] * 65536 + bytes[2] * 256 + bytes[3]
}

/// The bytes `bytes` crosses as inside a handshake message: its length and then itself.
pub open spec fn field_bytes(bytes: Seq<u8>) -> Seq<u8> {
    be16(bytes.len() as u16) + bytes
}

/// Appends `bytes` as a field: its length as a 16-bit number, and then itself.
///
/// A field longer than a 16-bit length can say is `Error::Handshake`.
pub fn put_field(message: &mut Vec<u8>, bytes: &[u8]) -> (put: Result<(), Error>)
    ensures
        put is Ok <==> bytes@.len() <= u16::MAX,
        put is Ok ==> final(message)@ == old(message)@ + field_bytes(bytes@),
        put matches Err(error) ==> error is Handshake && final(message)@ == old(message)@,
{
    if bytes.len() > 65535 {
        return Err(Error::Handshake);
    }
    let length = bytes.len() as u16;
    message.push((length / 256) as u8);
    message.push((length % 256) as u8);
    push_all(message, bytes);
    assert(message@ =~= old(message)@ + field_bytes(bytes@));
    Ok(())
}

/// A reader over a handshake message, taking it apart front to back.
pub struct Reader<'a> {
    /// The message.
    message: &'a [u8],
    /// How much of it has been read.
    at: usize,
}

impl<'a> Reader<'a> {
    /// What is being read, and how far along.
    pub closed spec fn state(&self) -> (Seq<u8>, int) {
        (self.message@, self.at as int)
    }

    /// A reader at the start of `message`.
    pub fn new(message: &'a [u8]) -> (reader: Reader<'a>)
        ensures
            reader.state() == (message@, 0int),
    {
        Reader { message, at: 0 }
    }

    /// The next byte; `Error::Handshake` where the message has ended.
    pub fn byte(&mut self) -> (byte: Result<u8, Error>)
        requires
            old(self).state().1 <= old(self).state().0.len(),
        ensures
            final(self).state().0 == old(self).state().0,
            final(self).state().1 <= final(self).state().0.len(),
            byte is Ok <==> old(self).state().1 < old(self).state().0.len(),
            byte matches Ok(b) ==> b == old(self).state().0[old(self).state().1] && final(self).state().1
                == old(self).state().1 + 1,
            byte matches Err(error) ==> error is Handshake && final(self).state() == old(self).state(),
    {
        if self.at >= self.message.len() {
            return Err(Error::Handshake);
        }
        let byte = self.message[self.at];
        self.at = self.at + 1;
        Ok(byte)
    }

    /// The next `count` bytes; `Error::Handshake` where fewer are left.
    pub fn bytes(&mut self, count: usize) -> (bytes: Result<Vec<u8>, Error>)
        requires
            old(self).state().1 <= old(self).state().0.len(),
        ensures
            final(self).state().0 == old(self).state().0,
            final(self).state().1 <= final(self).state().0.len(),
            bytes is Ok <==> old(self).state().1 + count <= old(self).state().0.len(),
            bytes matches Ok(b) ==> b@ == old(self).state().0.subrange(
                old(self).state().1,
                old(self).state().1 + count,
            ) && final(self).state().1 == old(self).state().1 + count,
            bytes matches Err(error) ==> error is Handshake && final(self).state() == old(self).state(),
    {
        if count > self.message.len() - self.at {
            return Err(Error::Handshake);
        }
        let end = self.at + count;
        let bytes = copied(&self.message[self.at..end]);
        assert(bytes@ =~= self.message@.subrange(self.at as int, end as int));
        self.at = end;
        Ok(bytes)
    }

    /// The next field: a 16-bit length and that many bytes; `Error::Handshake` where the
    /// message ends first.
    pub fn field(&mut self) -> (field: Result<Vec<u8>, Error>)
        requires
            old(self).state().1 <= old(self).state().0.len(),
        ensures
            final(self).state().0 == old(self).state().0,
            final(self).state().1 <= final(self).state().0.len(),
            field matches Ok(f) ==> field_at(old(self).state().0, old(self).state().1) == Some(
                (f@, final(self).state().1),
            ),
            field is Err ==> field_at(old(self).state().0, old(self).state().1) is None,
            field matches Err(error) ==> error is Handshake,
    {
        let length = match self.bytes(2) {
            Ok(length) => length,
            Err(error) => {
                return Err(error);
            },
        };
        let count = (length[0] as usize) * 256 + (length[1] as usize);
        self.bytes(count)
    }

    /// Checks that the whole message has been read; `Error::Handshake` where something is
    /// left.
    pub fn at_end(&self) -> (end: Result<(), Error>)
        ensures
            end is Ok <==> self.state().1 == self.state().0.len(),
            end matches Err(error) ==> error is Handshake,
    {
        if self.at == self.message.len() {
            Ok(())
        } else {
            Err(Error::Handshake)
        }
    }
}

/// The field that starts at `at` of `message`, and where the reading ends after it, if the
/// message holds one whole.
pub open spec fn field_at(message: Seq<u8>, at: int) -> Option<(Seq<u8>, int)> {
    if at + 2 > message.len() {
        None
    } else {
        let count = message[at] * 256 + message[at + 1];
        if at + 2 + count > message.len() {
            None
        } else {
            Some((message.subrange(at + 2, at + 2 + count), at + 2 + count))
        }
    }
}

/// The fields a message carries after its suite byte, `count` of them, if it carries exactly
/// those and nothing after.
pub open spec fn fields_of(message: Seq<u8>, at: int, count: nat) -> Option<Seq<Seq<u8>>>
    decreases count,
{
    if count == 0 {
        if at == message.len() { Some(Seq::empty()) } else { None }
    } else {
        match field_at(message, at) {
            Some((field, next)) => match fields_of(message, next, (count - 1) as nat) {
                Some(rest) => Some(seq![field] + rest),
                None => None,
            },
            None => None,
        }
    }
}

/// The fields a handshake message of `count` fields carries, if it is one of this suite.
pub open spec fn message_fields(message: Seq<u8>, count: nat) -> Option<Seq<Seq<u8>>> {
    if message.len() < 1 || message[0] != SUITE {
        None
    } else {
        fields_of(message, 1, count)
    }
}

/// The bytes a handshake message of `fields` crosses as: the suite, and each field.
pub open spec fn message_bytes(fields: Seq<Seq<u8>>) -> Seq<u8>
    decreases fields.len(),
{
    if fields.len() == 0 {
        seq![SUITE]
    } else {
        message_bytes(fields.drop_last()) + field_bytes(fields.last())
    }
}

/// A message read back gives the fields it was written from.
pub proof fn lemma_message_round_trip(fields: Seq<Seq<u8>>)
    requires
        forall|i: int| 0 <= i < fields.len() ==> (#[trigger] fields[i]).len() <= u16::MAX,
    ensures
        message_fields(message_bytes(fields), fields.len()) == Some(fields),
{
    lemma_fields_read_back(fields, fields.len() as int);
}

/// Reading the fields of a message from where the first `k` of them end gives the rest.
proof fn lemma_fields_read_back(fields: Seq<Seq<u8>>, k: int)
    requires
        0 <= k <= fields.len(),
        forall|i: int| 0 <= i < fields.len() ==> (#[trigger] fields[i]).len() <= u16::MAX,
    ensures
        fields_of(message_bytes(fields), message_bytes(fields.take(fields.len() - k)).len() as int, k as nat)
            == Some(fields.subrange(fields.len() - k, fields.len() as int)),
        message_bytes(fields)[0] == SUITE,
    decreases k,
{
    lemma_message_prefix(fields, fields.len() as int);
    let all = message_bytes(fields);
    if k == 0 {
        assert(fields.take(fields.len() as int) =~= fields);
        assert(fields.subrange(fields.len() as int, fields.len() as int) =~= Seq::<Seq<u8>>::empty());
    } else {
        lemma_fields_read_back(fields, k - 1);
        let j = fields.len() - k;
        lemma_message_prefix(fields, j);
        lemma_message_prefix(fields, j + 1);
        let at = message_bytes(fields.take(j)).len() as int;
        let field = fields[j];
        assert(fields.take(j + 1).drop_last() =~= fields.take(j));
        assert(fields.take(j + 1).last() == field);
        let next = message_bytes(fields.take(j + 1));
        assert(next =~= message_bytes(fields.take(j)) + field_bytes(field));
        assert(all.subrange(0, next.len() as int) == next);
        assert(all[at] == next[at]);
        assert(all[at + 1] == next[at + 1]);
        let len16 = field.len() as u16;
        assert(next[at] == (len16 / 256) as u8);
        assert(next[at + 1] == (len16 % 256) as u8);
        assert(all[at] * 256 + all[at + 1] == field.len());
        assert(all.subrange(at + 2, at + 2 + field.len()) =~= field) by {
            assert forall|i: int| 0 <= i < field.len() implies all.subrange(at + 2, at + 2 + field.len())[i]
                == field[i] by {
                assert(all[at + 2 + i] == next[at + 2 + i]);
            }
        }
        assert(fields.subrange(j, fields.len() as int) =~= seq![field] + fields.subrange(j + 1, fields.len() as int));
    }
}

/// The message of a prefix of the fields is a prefix of the message of all of them.
proof fn lemma_message_prefix(fields: Seq<Seq<u8>>, j: int)
    requires
        0 <= j <= fields.len(),
    ensures
        message_bytes(fields).subrange(0, message_bytes(fields.take(j)).len() as int) == message_bytes(fields.take(j)),
        message_bytes(fields.take(j)).len() <= message_bytes(fields).len(),
        message_bytes(fields).len() >= 1,
        message_bytes(fields)[0] == SUITE,
    decreases fields.len() - j,
{
    if j == fields.len() {
        assert(fields.take(j) =~= fields);
        assert(message_bytes(fields).subrange(0, message_bytes(fields).len() as int) =~= message_bytes(fields));
        lemma_message_first(fields);
    } else {
        lemma_message_prefix(fields, j + 1);
        lemma_message_first(fields);
        assert(fields.take(j + 1).drop_last() =~= fields.take(j));
        let shorter = message_bytes(fields.take(j));
        let longer = message_bytes(fields.take(j + 1));
        assert(longer.subrange(0, shorter.len() as int) =~= shorter);
        assert(message_bytes(fields).subrange(0, shorter.len() as int) =~= longer.subrange(0, shorter.len() as int));
    }
}

/// A message starts with the suite.
proof fn lemma_message_first(fields: Seq<Seq<u8>>)
    ensures
        message_bytes(fields).len() >= 1,
        message_bytes(fields)[0] == SUITE,
    decreases fields.len(),
{
    if fields.len() > 0 {
        lemma_message_first(fields.drop_last());
    }
}

/// Writes a handshake message of `fields`: the suite, and each field.
///
/// A field longer than a 16-bit length can say is `Error::Handshake`.
pub fn write_fields(fields: &Vec<Vec<u8>>) -> (message: Result<Vec<u8>, Error>)
    ensures
        message is Ok <==> forall|i: int| 0 <= i < fields@.len() ==> (#[trigger] fields@[i])@.len() <= u16::MAX,
        message matches Ok(m) ==> m@ == message_bytes(fields@.map_values(|f: Vec<u8>| f@)),
        message matches Err(error) ==> error is Handshake,
{
    let ghost all = fields@.map_values(|f: Vec<u8>| f@);
    let mut message: Vec<u8> = Vec::new();
    message.push(SUITE);
    let mut i: usize = 0;
    assert(message@ =~= message_bytes(all.take(0)));
    while i < fields.len()
        invariant
            i <= fields@.len(),
            all == fields@.map_values(|f: Vec<u8>| f@),
            message@ == message_bytes(all.take(i as int)),
            forall|k: int| 0 <= k < i ==> (#[trigger] fields@[k])@.len() <= u16::MAX,
        decreases fields.len() - i,
    {
        match put_field(&mut message, fields[i].as_slice()) {
            Ok(()) => {},
            Err(error) => {
                return Err(error);
            },
        }
        proof {
            assert(all.take(i + 1).drop_last() =~= all.take(i as int));
            assert(all.take(i + 1).last() == fields@[i as int]@);
        }
        i = i + 1;
    }
    assert(all.take(i as int) =~= all);
    Ok(message)
}

/// Reads a handshake message of `count` fields: the suite, and exactly that many fields.
///
/// A message of another suite, one that ends before its fields do, or one with something after
/// them is `Error::Handshake`.
pub fn read_fields(message: &[u8], count: usize) -> (fields: Result<Vec<Vec<u8>>, Error>)
    ensures
        fields matches Ok(f) ==> message_fields(message@, count as nat) == Some(f@.map_values(|v: Vec<u8>| v@))
            && f@.len() == count,
        fields is Err ==> message_fields(message@, count as nat) is None,
        fields matches Err(error) ==> error is Handshake,
{
    let mut reader = Reader::new(message);
    let suite = match reader.byte() {
        Ok(suite) => suite,
        Err(error) => {
            return Err(error);
        },
    };
    if suite != SUITE {
        return Err(Error::Handshake);
    }
    let mut fields: Vec<Vec<u8>> = Vec::new();
    let mut i: usize = 0;
    while i < count
        invariant
            i <= count,
            fields@.len() == i,
            reader.state().0 == message@,
            1 <= reader.state().1 <= message@.len(),
            message@.len() >= 1 && message@[0] == SUITE,
            fields_of(message@, 1, count as nat) == match fields_of(message@, reader.state().1, (count - i) as nat) {
                Some(rest) => Some(fields@.map_values(|v: Vec<u8>| v@) + rest),
                None => None,
            },
        decreases count - i,
    {
        let ghost before = fields@.map_values(|v: Vec<u8>| v@);
        let ghost at = reader.state().1;
        let field = match reader.field() {
            Ok(field) => field,
            Err(error) => {
                return Err(error);
            },
        };
        fields.push(field);
        proof {
            let rest = fields_of(message@, reader.state().1, (count - i - 1) as nat);
            assert(fields@.map_values(|v: Vec<u8>| v@) =~= before.push(field@));
            match rest {
                Some(tail) => {
                    assert(before + (seq![field@] + tail) =~= before.push(field@) + tail);
                },
                None => {},
            }
        }
        i = i + 1;
    }
    match reader.at_end() {
        Ok(()) => {},
        Err(error) => {
            return Err(error);
        },
    }
    proof {
        assert(fields@.map_values(|v: Vec<u8>| v@) + Seq::<Seq<u8>>::empty() =~= fields@.map_values(|v: Vec<u8>| v@));
    }
    Ok(fields)
}

/// The thirty-two bytes of `bytes`, if it is that long: what an exchange key crosses as.
///
/// Any other length is `Error::Handshake`.
pub fn exchange_key(bytes: &[u8]) -> (key: Result<[u8; 32], Error>)
    ensures
        key is Ok <==> bytes@.len() == 32,
        key matches Ok(k) ==> k@ == bytes@,
        key matches Err(error) ==> error is Handshake,
{
    if bytes.len() != 32 {
        return Err(Error::Handshake);
    }
    let mut key = [0u8; 32];
    let mut i: usize = 0;
    while i < 32
        invariant
            i <= 32,
            bytes@.len() == 32,
            key@.len() == 32,
            forall|k: int| 0 <= k < i ==> key@[k] == bytes@[k],
        decreases 32 - i,
    {
        key[i] = bytes[i];
        i = i + 1;
    }
    assert(key@ =~= bytes@);
    Ok(key)
}

/// What the end that speaks first offers: its fresh exchange key, its identity, and the key a
/// secret is to be encapsulated to.
pub struct Offer {
    /// The fresh exchange key.
    pub ephemeral: Vec<u8>,
    /// The public half of the identity.
    pub identity: Vec<u8>,
    /// The encapsulation key.
    pub encapsulation: Vec<u8>,
}

impl Offer {
    /// The offer as it crosses: the suite, and the three fields.
    ///
    /// A field longer than a 16-bit length can say is `Error::Handshake`.
    pub fn encode(ephemeral: &[u8; 32], identity: &PublicKey, encapsulation: &[u8]) -> (message: Result<Vec<u8>, Error>)
        ensures
            message matches Ok(m) ==> m@ == message_bytes(seq![ephemeral@, identity@.1, encapsulation@]),
            message is Ok <==> encapsulation@.len() <= u16::MAX,
            message matches Err(error) ==> error is Handshake,
    {
        let mut fields: Vec<Vec<u8>> = Vec::new();
        fields.push(copied(ephemeral.as_slice()));
        fields.push(copied(identity.as_bytes()));
        fields.push(copied(encapsulation));
        proof {
            assert(fields@.map_values(|f: Vec<u8>| f@) =~= seq![ephemeral@, identity@.1, encapsulation@]);
            assert(fields@[0]@.len() == 32);
            assert(fields@[1]@.len() <= 32) by {
                match identity@.0 {
                    KeyAlgorithm::Ed25519 => {},
                }
            }
        }
        write_fields(&fields)
    }

    /// Reads an offer: the suite, and exactly three fields.
    pub fn decode(message: &[u8]) -> (offer: Result<Offer, Error>)
        ensures
            offer matches Ok(o) ==> message_fields(message@, 3) == Some(seq![o.ephemeral@, o.identity@, o.encapsulation@]),
            offer is Err ==> message_fields(message@, 3) is None,
            offer matches Err(error) ==> error is Handshake,
    {
        let mut fields = match read_fields(message, 3) {
            Ok(fields) => fields,
            Err(error) => {
                return Err(error);
            },
        };
        let ghost read = fields@.map_values(|v: Vec<u8>| v@);
        assert(read.len() == 3);
        let encapsulation = fields.pop().unwrap();
        let identity = fields.pop().unwrap();
        let ephemeral = fields.pop().unwrap();
        assert(read =~= seq![ephemeral@, identity@, encapsulation@]);
        Ok(Offer { ephemeral, identity, encapsulation })
    }

    /// The fresh exchange key offered; `Error::Handshake` where it is not one.
    pub fn ephemeral(&self) -> (key: Result<[u8; 32], Error>)
        ensures
            key is Ok <==> self.ephemeral@.len() == 32,
            key matches Ok(k) ==> k@ == self.ephemeral@,
            key matches Err(error) ==> error is Handshake,
    {
        exchange_key(self.ephemeral.as_slice())
    }

    /// The identity offered; `Error::Malformed` where it is not a key.
    pub fn identity(&self) -> (key: Result<PublicKey, Error>)
        ensures
            key matches Ok(k) ==> k@ == (KeyAlgorithm::Ed25519, self.identity@),
            key is Ok <==> self.identity@.len() == 32,
            key matches Err(error) ==> error is Malformed,
    {
        PublicKey::from_bytes(KeyAlgorithm::Ed25519, copied(self.identity.as_slice()))
    }

    /// The encapsulation key offered, where it is as long as one is; `Error::Handshake` where
    /// it is not.
    pub fn encapsulation(&self) -> (key: Result<Vec<u8>, Error>)
        ensures
            key is Ok <==> self.encapsulation@.len() == KEM_ENCAPSULATION_LEN,
            key matches Ok(k) ==> k@ == self.encapsulation@,
            key matches Err(error) ==> error is Handshake,
    {
        if self.encapsulation.len() != KEM_ENCAPSULATION_LEN {
            return Err(Error::Handshake);
        }
        Ok(copied(self.encapsulation.as_slice()))
    }
}

/// What the end that was spoken to answers: its fresh exchange key, its identity, the secret
/// encapsulated to the offer's key, and its proof over the transcript.
pub struct Answer {
    /// The fresh exchange key.
    pub ephemeral: Vec<u8>,
    /// The public half of the identity.
    pub identity: Vec<u8>,
    /// The encapsulated secret.
    pub ciphertext: Vec<u8>,
    /// The signature over the transcript so far.
    pub proved: Vec<u8>,
}

impl Answer {
    /// The answer as it crosses: the suite, and the four fields.
    ///
    /// A field longer than a 16-bit length can say is `Error::Handshake`.
    pub fn encode(ephemeral: &[u8; 32], identity: &PublicKey, ciphertext: &[u8], signed: &Signature) -> (message: Result<Vec<u8>, Error>)
        ensures
            message matches Ok(m) ==> m@ == message_bytes(seq![ephemeral@, identity@.1, ciphertext@, signed@.1]),
            message is Ok <==> ciphertext@.len() <= u16::MAX,
            message matches Err(error) ==> error is Handshake,
    {
        let mut fields: Vec<Vec<u8>> = Vec::new();
        fields.push(copied(ephemeral.as_slice()));
        fields.push(copied(identity.as_bytes()));
        fields.push(copied(ciphertext));
        fields.push(copied(signed.as_bytes()));
        proof {
            assert(fields@.map_values(|f: Vec<u8>| f@) =~= seq![ephemeral@, identity@.1, ciphertext@, signed@.1]);
            assert(fields@[0]@.len() == 32);
            match identity@.0 {
                KeyAlgorithm::Ed25519 => {},
            }
            match signed@.0 {
                KeyAlgorithm::Ed25519 => {},
            }
        }
        write_fields(&fields)
    }

    /// Reads an answer: the suite, and exactly four fields.
    pub fn decode(message: &[u8]) -> (answer: Result<Answer, Error>)
        ensures
            answer matches Ok(a) ==> message_fields(message@, 4) == Some(
                seq![a.ephemeral@, a.identity@, a.ciphertext@, a.proved@],
            ),
            answer is Err ==> message_fields(message@, 4) is None,
            answer matches Err(error) ==> error is Handshake,
    {
        let mut fields = match read_fields(message, 4) {
            Ok(fields) => fields,
            Err(error) => {
                return Err(error);
            },
        };
        let ghost read = fields@.map_values(|v: Vec<u8>| v@);
        assert(read.len() == 4);
        let proved = fields.pop().unwrap();
        let ciphertext = fields.pop().unwrap();
        let identity = fields.pop().unwrap();
        let ephemeral = fields.pop().unwrap();
        assert(read =~= seq![ephemeral@, identity@, ciphertext@, proved@]);
        Ok(Answer { ephemeral, identity, ciphertext, proved })
    }

    /// The fresh exchange key answered; `Error::Handshake` where it is not one.
    pub fn ephemeral(&self) -> (key: Result<[u8; 32], Error>)
        ensures
            key is Ok <==> self.ephemeral@.len() == 32,
            key matches Ok(k) ==> k@ == self.ephemeral@,
            key matches Err(error) ==> error is Handshake,
    {
        exchange_key(self.ephemeral.as_slice())
    }

    /// The identity answered; `Error::Malformed` where it is not a key.
    pub fn identity(&self) -> (key: Result<PublicKey, Error>)
        ensures
            key matches Ok(k) ==> k@ == (KeyAlgorithm::Ed25519, self.identity@),
            key is Ok <==> self.identity@.len() == 32,
            key matches Err(error) ==> error is Malformed,
    {
        PublicKey::from_bytes(KeyAlgorithm::Ed25519, copied(self.identity.as_slice()))
    }

    /// The encapsulated secret, where it is as long as one is; `Error::Handshake` where it is
    /// not.
    pub fn ciphertext(&self) -> (ciphertext: Result<Vec<u8>, Error>)
        ensures
            ciphertext is Ok <==> self.ciphertext@.len() == KEM_CIPHERTEXT_LEN,
            ciphertext matches Ok(c) ==> c@ == self.ciphertext@,
            ciphertext matches Err(error) ==> error is Handshake,
    {
        if self.ciphertext.len() != KEM_CIPHERTEXT_LEN {
            return Err(Error::Handshake);
        }
        Ok(copied(self.ciphertext.as_slice()))
    }

    /// The proof answered, a signature over the transcript; `Error::Malformed` where it is not
    /// a signature.
    pub fn signature(&self) -> (signed: Result<Signature, Error>)
        ensures
            signed matches Ok(p) ==> p@ == (KeyAlgorithm::Ed25519, self.proved@),
            signed is Ok <==> self.proved@.len() == 64,
            signed matches Err(error) ==> error is Malformed,
    {
        Signature::from_bytes(KeyAlgorithm::Ed25519, copied(self.proved.as_slice()))
    }
}

/// The header a handshake message crosses behind: its length as a 32-bit number.
///
/// A message longer than a 32-bit length can say is `Error::Handshake`.
pub fn message_header(len: usize) -> (header: Result<Vec<u8>, Error>)
    ensures
        header is Ok <==> len <= u32::MAX,
        header matches Ok(h) ==> h@ == be32(len as u32),
        header matches Err(error) ==> error is Handshake,
{
    if len > 4294967295usize {
        return Err(Error::Handshake);
    }
    let value = len as u32;
    let mut header: Vec<u8> = Vec::new();
    header.push((value / 16777216) as u8);
    header.push(((value / 65536) % 256) as u8);
    header.push(((value / 256) % 256) as u8);
    header.push((value % 256) as u8);
    assert(header@ =~= be32(value));
    Ok(header)
}

/// How long the handshake message behind `header` is; one of no bytes or of more than
/// [`MAX_HANDSHAKE`] is `Error::Handshake`.
pub fn message_length(header: &[u8; 4]) -> (len: Result<usize, Error>)
    ensures
        len is Ok <==> 0 < be32_value(header@) <= MAX_HANDSHAKE,
        len matches Ok(n) ==> n == be32_value(header@),
        len matches Err(error) ==> error is Handshake,
{
    let length = (header[0] as usize) * 16777216 + (header[1] as usize) * 65536 + (header[2] as usize) * 256
        + (header[3] as usize);
    if length == 0 || length > MAX_HANDSHAKE {
        return Err(Error::Handshake);
    }
    Ok(length)
}

/// The transcript a handshake is proved over: every field that crossed, each behind its length
/// as a `u64`.
pub struct Transcript {
    /// What has been folded in so far.
    folded: Vec<u8>,
}

/// What folding `bytes` into a transcript adds: its length and then itself.
pub open spec fn folded_bytes(bytes: Seq<u8>) -> Seq<u8> {
    be_bytes(bytes.len() as u64) + bytes
}

impl Transcript {
    /// What has been folded in so far.
    pub closed spec fn folded(&self) -> Seq<u8> {
        self.folded@
    }

    /// An empty transcript.
    pub fn new() -> (transcript: Transcript)
        ensures
            transcript.folded() == Seq::<u8>::empty(),
    {
        let transcript = Transcript { folded: Vec::new() };
        assert(transcript.folded() =~= Seq::<u8>::empty());
        transcript
    }

    /// Folds `bytes` in.
    pub fn push(&mut self, bytes: &[u8])
        ensures
            final(self).folded() == old(self).folded() + folded_bytes(bytes@),
    {
        push_u64(&mut self.folded, bytes.len() as u64);
        push_all(&mut self.folded, bytes);
        assert(self.folded@ =~= old(self).folded() + folded_bytes(bytes@));
    }

    /// The digest of everything folded in so far.
    pub fn digest(&self) -> (digest: [u8; 32])
        ensures
            digest@ == sha256_of(self.folded()),
    {
        sha256(self.folded.as_slice())
    }
}

/// The label a handshake's transcript starts with: `rorolala/1`.
pub open spec fn label() -> Seq<u8> {
    seq![114u8, 111u8, 114u8, 111u8, 108u8, 97u8, 108u8, 97u8, 47u8, 49u8]
}

/// The handshake: the transcript both ends fold the same fields into, in the same order.
pub struct Handshake {
    /// The transcript.
    transcript: Transcript,
}

impl Handshake {
    /// What has been folded in so far.
    pub closed spec fn folded(&self) -> Seq<u8> {
        self.transcript.folded()
    }

    /// A handshake of `suite`: the label and the suite folded in.
    pub fn new(suite: u8) -> (handshake: Handshake)
        ensures
            handshake.folded() == folded_bytes(label()) + folded_bytes(seq![suite]),
    {
        let mut transcript = Transcript::new();
        let label_bytes = [114u8, 111u8, 114u8, 111u8, 108u8, 97u8, 108u8, 97u8, 47u8, 49u8];
        assert(label_bytes@ =~= label());
        transcript.push(label_bytes.as_slice());
        let suite_bytes = [suite];
        assert(suite_bytes@ =~= seq![suite]);
        transcript.push(suite_bytes.as_slice());
        assert(transcript.folded() =~= folded_bytes(label()) + folded_bytes(seq![suite]));
        Handshake { transcript }
    }

    /// Folds in the offer's fields.
    pub fn offer(&mut self, ephemeral: &[u8], identity: &[u8], encapsulation: &[u8])
        ensures
            final(self).folded() == old(self).folded() + folded_bytes(ephemeral@) + folded_bytes(identity@)
                + folded_bytes(encapsulation@),
    {
        self.transcript.push(ephemeral);
        self.transcript.push(identity);
        self.transcript.push(encapsulation);
    }

    /// Folds in the answer's fields, and hands back the digest the answer's proof is made over.
    pub fn answer(&mut self, ephemeral: &[u8], identity: &[u8], ciphertext: &[u8]) -> (digest: [u8; 32])
        ensures
            final(self).folded() == old(self).folded() + folded_bytes(ephemeral@) + folded_bytes(identity@)
                + folded_bytes(ciphertext@),
            digest@ == sha256_of(final(self).folded()),
    {
        self.transcript.push(ephemeral);
        self.transcript.push(identity);
        self.transcript.push(ciphertext);
        self.transcript.digest()
    }

    /// Folds in the answering end's proof, and hands back the digest the speaking end proves
    /// itself over.
    pub fn server_proof(&mut self, signature: &[u8]) -> (digest: [u8; 32])
        ensures
            final(self).folded() == old(self).folded() + folded_bytes(signature@),
            digest@ == sha256_of(final(self).folded()),
    {
        self.transcript.push(signature);
        self.transcript.digest()
    }

    /// Folds in the speaking end's proof, and hands back the digest the session is keyed from.
    pub fn client_proof(&mut self, signature: &[u8]) -> (digest: [u8; 32])
        ensures
            final(self).folded() == old(self).folded() + folded_bytes(signature@),
            digest@ == sha256_of(final(self).folded()),
    {
        self.transcript.push(signature);
        self.transcript.digest()
    }
}

/// The key HKDF-SHA256 extracts from `ikm` under `salt`.
pub uninterp spec fn hkdf_prk_of(salt: Seq<u8>, ikm: Seq<u8>) -> Seq<u8>;

/// The 32 bytes HKDF-SHA256 expands the key `prk` into under `info`.
pub uninterp spec fn hkdf_okm_of(prk: Seq<u8>, info: Seq<u8>) -> Seq<u8>;

/// `hkdf::Hkdf::<Sha256>::extract` with `salt`: the key it extracts, named.
#[verifier::external_body]
fn hkdf_extract(salt: &[u8], ikm: &[u8]) -> (prk: [u8; 32])
    ensures
        prk@ == hkdf_prk_of(salt@, ikm@),
{
    let (secret, _) = hkdf::Hkdf::<sha2::Sha256>::extract(Some(salt), ikm);
    let mut prk = [0u8; 32];
    prk.copy_from_slice(&secret);
    prk
}

/// `hkdf::Hkdf::<Sha256>::from_prk` and `expand` into 32 bytes: what it expands to, named.
///
/// A 32-byte key is one `from_prk` takes, and 32 bytes is an expansion `expand` always makes,
/// so neither fails.
#[verifier::external_body]
fn hkdf_expand(prk: &[u8; 32], info: &[u8]) -> (okm: [u8; 32])
    ensures
        okm@ == hkdf_okm_of(prk@, info@),
{
    let mut okm = [0u8; 32];
    hkdf::Hkdf::<sha2::Sha256>::from_prk(prk)
        .expect("a 32-byte key is a valid pseudo-random key")
        .expand(info, &mut okm)
        .expect("32 bytes always fits an HKDF-SHA256 expansion");
    okm
}

/// The keys a session is drawn from: a secret extracted from what both ends share, under the
/// transcript so far.
pub struct Schedule([u8; 32]);

impl Schedule {
    /// The secret.
    pub closed spec fn secret(&self) -> Seq<u8> {
        self.0@
    }

    /// The secret extracted from `ikm` under `salt`.
    pub fn extract(salt: &[u8], ikm: &[u8]) -> (schedule: Schedule)
        ensures
            schedule.secret() == hkdf_prk_of(salt@, ikm@),
    {
        Schedule(hkdf_extract(salt, ikm))
    }

    /// The key drawn from the secret under `label`.
    pub fn expand(&self, label: &str) -> (key: [u8; 32])
        ensures
            key@ == hkdf_okm_of(self.secret(), label.spec_bytes()),
    {
        hkdf_expand(&self.0, label.as_bytes())
    }

    /// The secret itself.
    pub fn bytes(&self) -> (bytes: &[u8; 32])
        ensures
            bytes@ == self.secret(),
    {
        &self.0
    }
}

/// The secret both ends share once an exchange and an encapsulation are done: the exchanged
/// secret and then the encapsulated one.
pub fn hybrid_shared(exchange: &[u8; 32], encapsulation: &[u8]) -> (secret: Vec<u8>)
    ensures
        secret@ == exchange@ + encapsulation@,
{
    let mut secret = copied(exchange.as_slice());
    push_all(&mut secret, encapsulation);
    secret
}

/// The nonce a record is sealed under: four zero bytes and the counter, most significant first.
pub open spec fn nonce_bytes(counter: u64) -> Seq<u8> {
    seq![0u8, 0u8, 0u8, 0u8] + be_bytes(counter)
}

/// The nonce a record is sealed under.
pub fn nonce(counter: u64) -> (nonce: [u8; 12])
    ensures
        nonce@ == nonce_bytes(counter),
{
    let mut raw: Vec<u8> = Vec::new();
    raw.push(0u8);
    raw.push(0u8);
    raw.push(0u8);
    raw.push(0u8);
    push_u64(&mut raw, counter);
    let mut nonce = [0u8; 12];
    let mut i: usize = 0;
    while i < 12
        invariant
            i <= 12,
            raw@.len() == 12,
            nonce@.len() == 12,
            forall|k: int| 0 <= k < i ==> nonce@[k] == raw@[k],
        decreases 12 - i,
    {
        nonce[i] = raw[i];
        i = i + 1;
    }
    assert(nonce@ =~= raw@);
    assert(raw@ =~= nonce_bytes(counter));
    nonce
}

/// What ChaCha20-Poly1305 seals `plain` as under `key` and `nonce`.
pub uninterp spec fn sealed_of(key: Seq<u8>, nonce: Seq<u8>, plain: Seq<u8>) -> Seq<u8>;

/// What ChaCha20-Poly1305 opens `sealed` as under `key` and `nonce`: `None` where it does not
/// open.
pub uninterp spec fn opened_of(key: Seq<u8>, nonce: Seq<u8>, sealed: Seq<u8>) -> Option<Seq<u8>>;

/// `ChaCha20Poly1305::new` and `Aead::encrypt`: what `plain` is sealed as, named.
///
/// The crate's sealing puts the 16-byte tag after the sealed bytes, so what comes back is that
/// much longer, and what an authenticated cipher seals opens, under the same key and nonce, as
/// what was sealed. The source refuses only a plaintext of `u32::MAX` blocks of 64 bytes or more,
/// so one of no more than `u32::MAX` bytes is always sealed.
#[verifier::external_body]
fn aead_seal(key: &[u8; 32], nonce: &[u8; 12], plain: &[u8]) -> (sealed: Option<Vec<u8>>)
    ensures
        plain@.len() <= u32::MAX ==> sealed is Some,
        sealed matches Some(s) ==> (s@ == sealed_of(key@, nonce@, plain@) && s@.len() == plain@.len() + 16),
        sealed matches Some(s) ==> opened_of(key@, nonce@, s@) == Some(plain@),
{
    chacha20poly1305::ChaCha20Poly1305::new(&chacha20poly1305::Key::from(*key))
        .encrypt(&chacha20poly1305::Nonce::from(*nonce), plain)
        .ok()
}

/// `ChaCha20Poly1305::new` and `Aead::decrypt`: what `sealed` opens as, named.
///
/// An authenticated cipher opens what it sealed under the same key and nonce as what was
/// sealed, which is what the contract claims beside the name, for a plaintext of at most
/// `u32::MAX` bytes: the name [`sealed_of`] is tied to what sealing gives only where sealing
/// succeeds, and the contract says nothing of longer plaintexts.
#[verifier::external_body]
fn aead_open(key: &[u8; 32], nonce: &[u8; 12], sealed: &[u8]) -> (plain: Option<Vec<u8>>)
    ensures
        plain matches Some(p) ==> opened_of(key@, nonce@, sealed@) == Some(p@),
        plain is None ==> opened_of(key@, nonce@, sealed@) is None,
        plain matches Some(p) ==> forall|original: Seq<u8>|
            sealed@ == #[trigger] sealed_of(key@, nonce@, original) && original.len() <= u32::MAX
                ==> p@ == original,
        plain is None ==> forall|original: Seq<u8>|
            original.len() <= u32::MAX ==> sealed@ != #[trigger] sealed_of(key@, nonce@, original),
{
    chacha20poly1305::ChaCha20Poly1305::new(&chacha20poly1305::Key::from(*key))
        .decrypt(&chacha20poly1305::Nonce::from(*nonce), sealed)
        .ok()
}

/// Seals `plaintext` once, under `key` and the first nonce: what a handshake's last proof
/// crosses as. A plaintext that will not seal is `Error::Handshake`.
pub fn seal_once(key: &[u8; 32], plaintext: &[u8]) -> (sealed: Result<Vec<u8>, Error>)
    ensures
        plaintext@.len() <= u32::MAX ==> sealed is Ok,
        sealed matches Ok(s) ==> s@ == sealed_of(key@, nonce_bytes(0), plaintext@),
        sealed matches Ok(s) ==> opened_of(key@, nonce_bytes(0), s@) == Some(plaintext@),
        sealed matches Err(error) ==> error is Handshake,
{
    match aead_seal(key, &nonce(0), plaintext) {
        Some(sealed) => Ok(sealed),
        None => Err(Error::Handshake),
    }
}

/// Opens what [`seal_once`] sealed under `key`; what does not open is `Error::BadRecord`.
pub fn open_once(key: &[u8; 32], ciphertext: &[u8]) -> (opened: Result<Vec<u8>, Error>)
    ensures
        opened matches Ok(p) ==> opened_of(key@, nonce_bytes(0), ciphertext@) == Some(p@),
        opened matches Err(error) ==> error is BadRecord && opened_of(key@, nonce_bytes(0), ciphertext@) is None,
        forall|original: Seq<u8>|
            ciphertext@ == #[trigger] sealed_of(key@, nonce_bytes(0), original) && original.len() <= u32::MAX
                ==> (opened matches Ok(p) && p@ == original),
{
    match aead_open(key, &nonce(0), ciphertext) {
        Some(plain) => Ok(plain),
        None => Err(Error::BadRecord),
    }
}

/// The key one direction of a session moves forward to: the 32 bytes HKDF expands it into
/// under `rekey`.
pub open spec fn ratcheted(key: Seq<u8>) -> Seq<u8> {
    hkdf_okm_of(key, seq![114u8, 101u8, 107u8, 101u8, 121u8])
}

/// The key a direction moves forward to.
pub fn ratchet(key: &[u8; 32]) -> (next: [u8; 32])
    ensures
        next@ == ratcheted(key@),
{
    let info = [114u8, 101u8, 107u8, 101u8, 121u8];
    assert(info@ =~= seq![114u8, 101u8, 107u8, 101u8, 121u8]);
    hkdf_expand(key, info.as_slice())
}

/// One direction of a session: the key records are sealed under, how many have been, and how
/// many go under one key.
pub struct Direction {
    /// The key.
    key: [u8; 32],
    /// How many records have gone this way.
    counter: u64,
    /// How many records go under one key before it is ratcheted forward.
    rekey_every: u64,
}

/// The state a direction is in: its key, how many records have gone, and how many go under one
/// key.
pub type DirectionState = (Seq<u8>, u64, u64);

/// The state a direction moves to once a record has gone: one more record, and the key
/// ratcheted forward where that makes a whole number of keys' worth. A direction ratcheted every
/// zero records is never ratcheted.
pub open spec fn advanced(state: DirectionState) -> DirectionState {
    let counter = (state.1 + 1) as u64;
    if state.2 != 0 && counter % state.2 == 0 {
        (ratcheted(state.0), counter, state.2)
    } else {
        (state.0, counter, state.2)
    }
}

impl Direction {
    /// The state the direction is in.
    pub closed spec fn state(&self) -> DirectionState {
        (self.key@, self.counter, self.rekey_every)
    }

    /// A direction that starts at `key`, having sealed nothing yet, ratcheted every
    /// [`REKEY_EVERY`] records.
    pub fn new(key: [u8; 32]) -> (direction: Direction)
        ensures
            direction.state() == (key@, 0u64, REKEY_EVERY),
    {
        Direction { key, counter: 0, rekey_every: REKEY_EVERY }
    }

    /// A direction that starts at `key` and is ratcheted every `every` records; every zero
    /// records is never.
    pub fn with_rekey_every(key: [u8; 32], every: u64) -> (direction: Direction)
        ensures
            direction.state() == (key@, 0u64, every),
    {
        Direction { key, counter: 0, rekey_every: every }
    }

    /// How many records have gone this way so far.
    pub fn records(&self) -> (count: u64)
        ensures
            count == self.state().1,
    {
        self.counter
    }

    /// Moves on by one record.
    fn advance(&mut self)
        requires
            old(self).state().1 < u64::MAX,
        ensures
            final(self).state() == advanced(old(self).state()),
    {
        self.counter = self.counter + 1;
        if self.rekey_every != 0 && self.counter % self.rekey_every == 0 {
            self.key = ratchet(&self.key);
        }
    }

    /// Seals `data` as the next record this way: its length as a 32-bit number and the sealed
    /// bytes. A record no longer than [`MAX_PLAINTEXT`] always seals, where the counter has room to
    /// move on.
    pub fn seal(&mut self, data: &[u8]) -> (record: Option<Vec<u8>>)
        requires
            data@.len() <= MAX_PLAINTEXT,
            old(self).state().1 < u64::MAX,
        ensures
            record is Some,
            record matches Some(r) ==> r@ == be32((data@.len() + 16) as u32) + sealed_of(
                old(self).state().0,
                nonce_bytes(old(self).state().1),
                data@,
            ) && final(self).state() == advanced(old(self).state()),
            record is None ==> final(self).state() == old(self).state(),
    {
        let sealed = match aead_seal(&self.key, &nonce(self.counter), data) {
            Some(sealed) => sealed,
            None => {
                return None;
            },
        };
        let mut record = match message_header(sealed.len()) {
            Ok(header) => header,
            Err(_) => {
                return None;
            },
        };
        push_all(&mut record, sealed.as_slice());
        self.advance();
        Some(record)
    }

    /// Opens `sealed`, the next record that came this way.
    ///
    /// What does not open is `Error::BadRecord`, and the direction does not move on for it. A
    /// record the other end sealed from the same state opens as what it sealed, and both ends
    /// move on to the same state.
    pub fn open(&mut self, sealed: &[u8]) -> (plain: Result<Vec<u8>, Error>)
        requires
            old(self).state().1 < u64::MAX,
        ensures
            plain matches Ok(p) ==> opened_of(old(self).state().0, nonce_bytes(old(self).state().1), sealed@)
                == Some(p@) && final(self).state() == advanced(old(self).state()),
            plain matches Err(error) ==> error is BadRecord && final(self).state() == old(self).state(),
            forall|original: Seq<u8>|
                sealed@ == #[trigger] sealed_of(old(self).state().0, nonce_bytes(old(self).state().1), original)
                    && original.len() <= u32::MAX ==> (plain matches Ok(p) && p@ == original),
    {
        match aead_open(&self.key, &nonce(self.counter), sealed) {
            Some(plain) => {
                self.advance();
                Ok(plain)
            },
            None => Err(Error::BadRecord),
        }
    }
}

/// Takes the next whole record off the front of `incoming`, if one is all there.
///
/// A record is its length as a 32-bit number and that many sealed bytes; a length no session
/// writes (shorter than a tag, longer than a sealed record) is `Error::BadRecord`.
pub fn take_record(incoming: &mut Vec<u8>) -> (record: Result<Option<Vec<u8>>, Error>)
    ensures
        old(incoming)@.len() < 4 ==> (record matches Ok(None)) && final(incoming)@ == old(incoming)@,
        old(incoming)@.len() >= 4 ==> {
            let length = be32_value(old(incoming)@);
            &&& (length < TAG_LEN || length > MAX_CIPHERTEXT) ==> (record matches Err(error) && error is BadRecord)
                && final(incoming)@ == old(incoming)@
            &&& (TAG_LEN <= length <= MAX_CIPHERTEXT && old(incoming)@.len() < 4 + length) ==> (record matches Ok(None))
                && final(incoming)@ == old(incoming)@
            &&& (TAG_LEN <= length <= MAX_CIPHERTEXT && old(incoming)@.len() >= 4 + length) ==> (record matches Ok(
                Some(r),
            ) && r@ == old(incoming)@.subrange(4, 4 + length)) && final(incoming)@ == old(incoming)@.subrange(
                4 + length,
                old(incoming)@.len() as int,
            )
        },
{
    if incoming.len() < 4 {
        return Ok(None);
    }
    let length = (incoming[0] as usize) * 16777216 + (incoming[1] as usize) * 65536 + (incoming[2] as usize)
        * 256 + (incoming[3] as usize);
    if length < TAG_LEN || length > MAX_CIPHERTEXT {
        return Err(Error::BadRecord);
    }
    if incoming.len() < 4 + length {
        return Ok(None);
    }
    let record = copied(&incoming.as_slice()[4..4 + length]);
    let rest = copied(&incoming.as_slice()[4 + length..incoming.len()]);
    assert(record@ =~= old(incoming)@.subrange(4, 4 + length as int));
    assert(rest@ =~= old(incoming)@.subrange(4 + length as int, old(incoming)@.len() as int));
    *incoming = rest;
    Ok(Some(record))
}

} // verus!

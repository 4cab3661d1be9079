//! The content address a stored object is named by.
use vstd::prelude::*;
use vstd::string::StringSliceAdditionalSpecFns;

use super::error::Error;
use crate::text::{hex_char, hex_digit, hex_text, hex_value, hex_value_of, push_char};

verus! {

/// The width, in bytes, of a content hash.
pub const BLAKE3_HASH_LEN: usize = 32;

/// The content address a stored object is named by.
///
/// A key is the `Blake3` hash of the object's original content — what a caller handed over,
/// not what the backend laid down — so a backend may encode, compress or pack an object however
/// it likes without any key changing with it.
#[derive(Debug, Clone, Copy, PartialEq, Eq, PartialOrd, Ord, Hash)]
pub struct Key {
    /// The digest itself.
    digest: [u8; 32],
}

impl View for Key {
    type V = Seq<u8>;

    closed spec fn view(&self) -> Seq<u8> {
        self.digest@
    }
}

/// Every key is a digest of the hash's width.
pub proof fn lemma_key_len(key: Key)
    ensures
        key@.len() == 32,
{
}

/// The order keys are kept in: the digests compared byte by byte, first difference deciding.
pub open spec fn digest_lt(a: Seq<u8>, b: Seq<u8>) -> bool {
    exists|i: int|
        0 <= i < a.len() && i < b.len() && a[i] < b[i] && (forall|j: int|
            0 <= j < i ==> #[trigger] a[j] == b[j])
}

/// No digest comes before itself.
pub proof fn lemma_digest_lt_irreflexive(a: Seq<u8>)
    ensures
        !digest_lt(a, a),
{
}

/// The order is transitive.
pub proof fn lemma_digest_lt_transitive(a: Seq<u8>, b: Seq<u8>, c: Seq<u8>)
    requires
        digest_lt(a, b),
        digest_lt(b, c),
    ensures
        digest_lt(a, c),
{
    let i = choose|i: int|
        0 <= i < a.len() && i < b.len() && a[i] < b[i] && (forall|j: int|
            0 <= j < i ==> #[trigger] a[j] == b[j]);
    let k = choose|k: int|
        0 <= k < b.len() && k < c.len() && b[k] < c[k] && (forall|j: int|
            0 <= j < k ==> #[trigger] b[j] == c[j]);
    if i < k {
        assert forall|j: int| 0 <= j < i implies #[trigger] a[j] == c[j] by {
            assert(b[j] == c[j]);
        }
        assert(a[i] < c[i]);
    } else if k < i {
        assert forall|j: int| 0 <= j < k implies #[trigger] a[j] == c[j] by {
            assert(a[j] == b[j]);
        }
        assert(a[k] == b[k]);
    } else {
        assert forall|j: int| 0 <= j < i implies #[trigger] a[j] == c[j] by {
            assert(a[j] == b[j]);
        }
    }
}

/// Two digests of one length are equal, or one comes before the other.
pub proof fn lemma_digest_lt_total(a: Seq<u8>, b: Seq<u8>)
    requires
        a.len() == b.len(),
    ensures
        a == b || digest_lt(a, b) || digest_lt(b, a),
{
    if a != b {
        assert(exists|i: int| 0 <= i < a.len() && a[i] != b[i]) by {
            if !(exists|i: int| 0 <= i < a.len() && a[i] != b[i]) {
                assert(a =~= b);
            }
        }
        let first = lemma_first_difference(a, b, a.len() as int);
        if a[first] < b[first] {
            assert(digest_lt(a, b));
        } else {
            assert forall|j: int| 0 <= j < first implies #[trigger] b[j] == a[j] by {
                assert(a[j] == b[j]);
            }
            assert(digest_lt(b, a));
        }
    }
}

/// The first place below `upto` where two digests of one length differ, given that there is one.
proof fn lemma_first_difference(a: Seq<u8>, b: Seq<u8>, upto: int) -> (first: int)
    requires
        a.len() == b.len(),
        0 <= upto <= a.len(),
        exists|i: int| 0 <= i < upto && a[i] != b[i],
    ensures
        0 <= first < upto,
        a[first] != b[first],
        forall|j: int| 0 <= j < first ==> #[trigger] a[j] == b[j],
    decreases upto,
{
    if exists|i: int| 0 <= i < upto - 1 && a[i] != b[i] {
        lemma_first_difference(a, b, upto - 1)
    } else {
        upto - 1
    }
}

/// The key's digest written out in lowercase hex.
pub open spec fn key_hex(key: Key) -> Seq<char> {
    hex_text(key@)
}

/// The key as `Display` would write it: `blake3:` and then the digest in hex.
pub open spec fn key_text(key: Key) -> Seq<char> {
    seq!['b', 'l', 'a', 'k', 'e', '3', ':'] + key_hex(key)
}

/// The bytes the name of the hash is written with in front of a digest: `blake3:`.
pub open spec fn hash_prefix() -> Seq<u8> {
    seq![98u8, 108u8, 97u8, 107u8, 101u8, 51u8, 58u8]
}

/// Whether `pair` reads as one byte in hex, as `u8::from_str_radix(pair, 16)` reads it: two hex
/// digits, or a `+` and one.
pub open spec fn hex_pair_value(pair: Seq<u8>) -> Option<u8>
    recommends
        pair.len() == 2,
{
    if pair[0] == 43u8 {
        hex_value(pair[1])
    } else {
        match (hex_value(pair[0]), hex_value(pair[1])) {
            (Some(high), Some(low)) => Some((high * 16 + low) as u8),
            _ => None,
        }
    }
}

/// The digest `hex` spells, two characters a byte, if every pair reads as one.
pub open spec fn digest_of_hex(hex: Seq<u8>) -> Option<Seq<u8>>
    decreases hex.len(),
{
    if hex.len() < 2 {
        if hex.len() == 0 { Some(Seq::empty()) } else { None }
    } else {
        match (digest_of_hex(hex.subrange(0, hex.len() - 2)), hex_pair_value(
            hex.subrange(hex.len() - 2, hex.len() as int),
        )) {
            (Some(front), Some(last)) => Some(front.push(last)),
            _ => None,
        }
    }
}

/// The key `text` names: `blake3:<hex>` or the hex alone, sixty-four digits of it.
pub open spec fn parse_key(text: Seq<u8>) -> Option<Seq<u8>> {
    let hex = if text.len() >= 7 && text.subrange(0, 7) == hash_prefix() {
        text.subrange(7, text.len() as int)
    } else {
        text
    };
    if hex.len() != 64 {
        None
    } else {
        digest_of_hex(hex)
    }
}

/// What the digits of `hex_text` read back as.
pub proof fn lemma_digest_of_hex_text(bytes: Seq<u8>)
    ensures
        digest_of_hex(hex_text(bytes).map_values(|c: char| c as u8)) == Some(bytes),
    decreases bytes.len(),
{
    let digits = hex_text(bytes).map_values(|c: char| c as u8);
    crate::text::lemma_hex_text_len(bytes);
    if bytes.len() > 0 {
        let front = bytes.drop_last();
        let last = bytes.last();
        lemma_digest_of_hex_text(front);
        crate::text::lemma_hex_text_len(front);
        let front_digits = hex_text(front).map_values(|c: char| c as u8);
        assert(digits.subrange(0, digits.len() - 2) =~= front_digits);
        crate::text::lemma_hex_char_reads_back(last / 16);
        crate::text::lemma_hex_char_reads_back(last % 16);
        let pair = digits.subrange(digits.len() - 2, digits.len() as int);
        assert(pair[0] == hex_char(last / 16) as u8);
        assert(pair[1] == hex_char(last % 16) as u8);
        assert(pair[0] != 43u8);
        assert(((last / 16) * 16 + last % 16) as u8 == last);
        assert(front.push(last) =~= bytes);
    } else {
        assert(digits =~= Seq::<u8>::empty());
    }
}

impl Key {
    /// A key from the digest it was derived from.
    pub fn new(digest: [u8; 32]) -> (key: Key)
        ensures
            key@ == digest@,
    {
        Key { digest }
    }

    /// The key whose digest is the thirty-two bytes at `at` in `bytes`.
    pub fn read(bytes: &[u8], at: usize) -> (key: Key)
        requires
            at + 32 <= bytes@.len(),
        ensures
            key@ == bytes@.subrange(at as int, at + 32),
    {
        let mut digest = [0u8; 32];
        let mut k: usize = 0;
        let n = bytes.len();
        while k < 32
            invariant
                k <= 32,
                n == bytes@.len(),
                at + 32 <= bytes@.len(),
                digest@.len() == 32,
                forall|j: int| 0 <= j < k ==> digest@[j] == bytes@[at + j],
            decreases 32 - k,
        {
            digest[k] = bytes[at + k];
            k = k + 1;
        }
        assert(digest@ =~= bytes@.subrange(at as int, at + 32));
        Key { digest }
    }

    /// The digest itself.
    pub fn digest(&self) -> (digest: &[u8; 32])
        ensures
            digest@ == self@,
    {
        &self.digest
    }

    /// The digest written out in lowercase hex.
    ///
    /// This is how a key names where its object sits, and it is the half of the written-out key
    /// that comes after `blake3:`.
    pub fn hex(&self) -> (hex: String)
        ensures
            hex@ == key_hex(*self),
            hex@.len() == 64,
    {
        let mut hex = String::new();
        let mut i: usize = 0;
        while i < 32
            invariant
                i <= 32,
                self@.len() == 32,
                hex@ == hex_text(self@.subrange(0, i as int)),
            decreases 32 - i,
        {
            let byte = self.digest[i];
            proof {
                assert(self@.subrange(0, i + 1).drop_last() =~= self@.subrange(0, i as int));
                assert(byte >> 4u8 == byte / 16) by (bit_vector);
                assert(byte & 0x0fu8 == byte % 16) by (bit_vector);
            }
            push_char(&mut hex, hex_digit(byte >> 4u8));
            push_char(&mut hex, hex_digit(byte & 0x0fu8));
            i = i + 1;
            assert(hex@ =~= hex_text(self@.subrange(0, i as int)));
        }
        assert(self@.subrange(0, 32) =~= self@);
        proof {
            crate::text::lemma_hex_text_len(self@);
        }
        hex
    }

    /// The key written out as `blake3:` and the digest in hex.
    pub fn to_string(&self) -> (text: String)
        ensures
            text@ == key_text(*self),
    {
        let mut text = String::new();
        push_char(&mut text, 'b');
        push_char(&mut text, 'l');
        push_char(&mut text, 'a');
        push_char(&mut text, 'k');
        push_char(&mut text, 'e');
        push_char(&mut text, '3');
        push_char(&mut text, ':');
        let ghost prefix = text@;
        let mut at: usize = 0;
        while at < 32
            invariant
                at <= 32,
                self@.len() == 32,
                prefix == seq!['b', 'l', 'a', 'k', 'e', '3', ':'],
                text@ == prefix + hex_text(self@.subrange(0, at as int)),
            decreases 32 - at,
        {
            let byte = self.digest[at];
            proof {
                assert(self@.subrange(0, at + 1).drop_last() =~= self@.subrange(0, at as int));
                assert(byte >> 4u8 == byte / 16) by (bit_vector);
                assert(byte & 0x0fu8 == byte % 16) by (bit_vector);
            }
            push_char(&mut text, hex_digit(byte >> 4u8));
            push_char(&mut text, hex_digit(byte & 0x0fu8));
            at = at + 1;
            assert(text@ =~= prefix + hex_text(self@.subrange(0, at as int)));
        }
        assert(self@.subrange(0, 32) =~= self@);
        text
    }

    /// Whether this key comes before `other` in key order.
    pub fn precedes(&self, other: &Key) -> (before: bool)
        ensures
            before == digest_lt(self@, other@),
    {
        let mut i: usize = 0;
        while i < 32
            invariant
                i <= 32,
                self@.len() == 32,
                other@.len() == 32,
                forall|j: int| 0 <= j < i ==> #[trigger] self@[j] == other@[j],
            decreases 32 - i,
        {
            if self.digest[i] < other.digest[i] {
                return true;
            }
            if self.digest[i] > other.digest[i] {
                proof {
                    assert forall|k: int|
                        0 <= k < 32 && self@[k] < other@[k] implies !(forall|j: int|
                        0 <= j < k ==> #[trigger] self@[j] == other@[j]) by {
                        if k > i {
                            assert(self@[i as int] != other@[i as int]);
                        }
                    }
                }
                return false;
            }
            i = i + 1;
        }
        false
    }

    /// Whether this key names the same digest as `other`.
    pub fn same_as(&self, other: &Key) -> (same: bool)
        ensures
            same == (self@ == other@),
    {
        let mut i: usize = 0;
        while i < 32
            invariant
                i <= 32,
                self@.len() == 32,
                other@.len() == 32,
                forall|j: int| 0 <= j < i ==> #[trigger] self@[j] == other@[j],
            decreases 32 - i,
        {
            if self.digest[i] != other.digest[i] {
                return false;
            }
            i = i + 1;
        }
        assert(self@ =~= other@);
        true
    }

    /// Reads a key written as `blake3:<hex>`, or as the digest alone.
    ///
    /// Every pair of characters is read the way `u8::from_str_radix` reads a pair in base
    /// sixteen, so upper-case digits are read as well as lower-case ones.
    pub fn parse(text: &str) -> (key: Option<Key>)
        ensures
            key matches Some(k) ==> parse_key(text.spec_bytes()) == Some(k@),
            key is None ==> parse_key(text.spec_bytes()) is None,
    {
        let bytes = text.as_bytes();
        let ghost all = text.spec_bytes();
        let mut start: usize = 0;
        if bytes.len() >= 7 && bytes[0] == 98u8 && bytes[1] == 108u8 && bytes[2] == 97u8 && bytes[3]
            == 107u8 && bytes[4] == 101u8 && bytes[5] == 51u8 && bytes[6] == 58u8 {
            start = 7;
            assert(all.subrange(0, 7) =~= hash_prefix());
        } else {
            proof {
                if all.len() >= 7 && all.subrange(0, 7) == hash_prefix() {
                    assert(all.subrange(0, 7)[0] == 98u8);
                    assert(all.subrange(0, 7)[1] == 108u8);
                    assert(all.subrange(0, 7)[2] == 97u8);
                    assert(all.subrange(0, 7)[3] == 107u8);
                    assert(all.subrange(0, 7)[4] == 101u8);
                    assert(all.subrange(0, 7)[5] == 51u8);
                    assert(all.subrange(0, 7)[6] == 58u8);
                }
            }
        }
        let ghost hex = all.subrange(start as int, all.len() as int);
        assert(start == 0 ==> hex =~= all);
        if bytes.len() - start != 64 {
            return None;
        }
        let mut digest = [0u8; 32];
        let mut i: usize = 0;
        while i < 32
            invariant
                i <= 32,
                bytes@ == all,
                all == text.spec_bytes(),
                hex == all.subrange(start as int, all.len() as int),
                hex.len() == 64,
                start <= 7,
                start + 64 == bytes@.len(),
                parse_key(all) == digest_of_hex(hex),
                digest@.len() == 32,
                digest_of_hex(hex.subrange(0, 2 * i)) == Some(digest@.subrange(0, i as int)),
            decreases 32 - i,
        {
            let first = bytes[start + 2 * i];
            let second = bytes[start + 2 * i + 1];
            let ghost pair = hex.subrange(2 * i, 2 * i + 2);
            assert(pair[0] == first && pair[1] == second);
            let value = if first == 43u8 {
                match hex_value_of(second) {
                    Some(low) => low,
                    None => {
                        proof {
                            assert(hex_value(second) is None);
                            assert(hex_pair_value(pair) is None);
                            lemma_digest_of_hex_fails_later(hex, 2 * i as int);
                            assert(digest_of_hex(hex) is None);
                        }
                        return None;
                    },
                }
            } else {
                match (hex_value_of(first), hex_value_of(second)) {
                    (Some(high), Some(low)) => high * 16 + low,
                    _ => {
                        proof {
                            lemma_digest_of_hex_fails_later(hex, 2 * i as int);
                        }
                        return None;
                    },
                }
            };
            assert(hex_pair_value(pair) == Some(value));
            digest[i] = value;
            i = i + 1;
            proof {
                let front = hex.subrange(0, 2 * i);
                assert(front.subrange(0, front.len() - 2) =~= hex.subrange(0, 2 * (i - 1)));
                assert(front.subrange(front.len() - 2, front.len() as int) =~= pair);
                assert(digest@.subrange(0, i - 1).push(value) =~= digest@.subrange(0, i as int));
            }
        }
        assert(hex.subrange(0, 64) =~= hex);
        assert(digest@.subrange(0, 32) =~= digest@);
        Some(Key { digest })
    }
}

/// Once a pair at `at` does not read, nothing that reaches past it does either.
proof fn lemma_digest_of_hex_fails_later(hex: Seq<u8>, at: int)
    requires
        0 <= at,
        at + 2 <= hex.len(),
        at % 2 == 0,
        hex.len() % 2 == 0,
        hex_pair_value(hex.subrange(at, at + 2)) is None,
    ensures
        digest_of_hex(hex) is None,
    decreases hex.len(),
{
    if hex.len() == at + 2 {
        assert(hex.subrange(hex.len() - 2, hex.len() as int) =~= hex.subrange(at, at + 2));
    } else {
        let front = hex.subrange(0, hex.len() - 2);
        assert(front.subrange(at, at + 2) =~= hex.subrange(at, at + 2));
        lemma_digest_of_hex_fails_later(front, at);
    }
}

/// A key written out reads back as the same key, whether or not the hash is named.
pub proof fn lemma_key_text_reads_back(key: Key)
    ensures
        parse_key(key_hex(key).map_values(|c: char| c as u8)) == Some(key@),
        parse_key(key_text(key).map_values(|c: char| c as u8)) == Some(key@),
{
    let hex = key_hex(key).map_values(|c: char| c as u8);
    crate::text::lemma_hex_text_len(key@);
    lemma_digest_of_hex_text(key@);
    let text = key_text(key).map_values(|c: char| c as u8);
    assert(text.subrange(0, 7) =~= hash_prefix());
    assert(text.subrange(7, text.len() as int) =~= hex);
    if hex.len() >= 7 && hex.subrange(0, 7) == hash_prefix() {
        // A hex digit is never `b`'s neighbour `l`: the second character of the prefix is not
        // one a digest is written with.
        crate::text::lemma_hex_char_reads_back(key@[0] % 16);
        assert(hex.subrange(0, 7)[1] == hex[1]);
        assert(hex[1] == hex_char(key@[0] % 16) as u8) by {
            assert(key@.subrange(0, 1).drop_last() =~= Seq::<u8>::empty());
            lemma_hex_text_first(key@);
        }
        assert(false);
    }
}

/// The first two digits of hex text are those of the first byte.
proof fn lemma_hex_text_first(bytes: Seq<u8>)
    requires
        bytes.len() > 0,
    ensures
        hex_text(bytes).len() >= 2,
        hex_text(bytes)[0] == hex_char(bytes[0] / 16),
        hex_text(bytes)[1] == hex_char(bytes[0] % 16),
    decreases bytes.len(),
{
    crate::text::lemma_hex_text_len(bytes);
    if bytes.len() == 1 {
        assert(bytes.drop_last() =~= Seq::<u8>::empty());
    } else {
        lemma_hex_text_first(bytes.drop_last());
        crate::text::lemma_hex_text_len(bytes.drop_last());
    }
}

impl std::str::FromStr for Key {
    type Err = Error;

    /// Reads a key as [`Key::parse`] does, and refuses what does not read as
    /// [`Error::Malformed`].
    fn from_str(text: &str) -> (key: Result<Key, Error>)
        ensures
            key matches Ok(k) ==> parse_key(text.spec_bytes()) == Some(k@),
            key is Err ==> parse_key(text.spec_bytes()) is None,
            key matches Err(error) ==> error is Malformed,
    {
        match Key::parse(text) {
            Some(key) => Ok(key),
            None => Err(Error::Malformed),
        }
    }
}

} // verus!

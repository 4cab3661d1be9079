//! Building text a character at a time, and the hex digits a byte is written with.
use vstd::prelude::*;
use vstd::string::StringExecFns;

verus! {

/// Appends `c` to `text`.
///
/// `String::push` has no contract in vstd; this one claims that what comes out is what went in
/// with `c` after it, which is what the standard library documents the method to do.
#[verifier::external_body]
pub(crate) fn push_char(text: &mut String, c: char)
    ensures
        final(text)@ == old(text)@.push(c),
{
    text.push(c);
}

/// Appends `tail` to `text`, by vstd's `append`.
pub(crate) fn push_text(text: &mut String, tail: &str)
    ensures
        final(text)@ == old(text)@ + tail@,
{
    text.append(tail);
}

/// The lowercase hex digit that stands for `n`, for `n` below sixteen.
pub open spec fn hex_char(n: u8) -> char {
    if n == 0 { '0' }
    else if n == 1 { '1' }
    else if n == 2 { '2' }
    else if n == 3 { '3' }
    else if n == 4 { '4' }
    else if n == 5 { '5' }
    else if n == 6 { '6' }
    else if n == 7 { '7' }
    else if n == 8 { '8' }
    else if n == 9 { '9' }
    else if n == 10 { 'a' }
    else if n == 11 { 'b' }
    else if n == 12 { 'c' }
    else if n == 13 { 'd' }
    else if n == 14 { 'e' }
    else { 'f' }
}

/// The lowercase hex digit that stands for `n`.
pub fn hex_digit(n: u8) -> (c: char)
    requires
        n < 16,
    ensures
        c == hex_char(n),
{
    if n == 0 { '0' }
    else if n == 1 { '1' }
    else if n == 2 { '2' }
    else if n == 3 { '3' }
    else if n == 4 { '4' }
    else if n == 5 { '5' }
    else if n == 6 { '6' }
    else if n == 7 { '7' }
    else if n == 8 { '8' }
    else if n == 9 { '9' }
    else if n == 10 { 'a' }
    else if n == 11 { 'b' }
    else if n == 12 { 'c' }
    else if n == 13 { 'd' }
    else if n == 14 { 'e' }
    else { 'f' }
}

/// `bytes` written out in lowercase hex, two digits a byte, high half first.
pub open spec fn hex_text(bytes: Seq<u8>) -> Seq<char>
    decreases bytes.len(),
{
    if bytes.len() == 0 {
        Seq::empty()
    } else {
        hex_text(bytes.drop_last()) + seq![hex_char(bytes.last() / 16), hex_char(bytes.last() % 16)]
    }
}

/// Hex text is two digits for every byte.
pub proof fn lemma_hex_text_len(bytes: Seq<u8>)
    ensures
        hex_text(bytes).len() == 2 * bytes.len(),
    decreases bytes.len(),
{
    if bytes.len() > 0 {
        lemma_hex_text_len(bytes.drop_last());
    }
}

/// The value of the hex digit `c` — upper or lower case — if it is one.
pub open spec fn hex_value(c: u8) -> Option<u8> {
    if 48 <= c <= 57 {
        Some((c - 48) as u8)
    } else if 97 <= c <= 102 {
        Some((c - 87) as u8)
    } else if 65 <= c <= 70 {
        Some((c - 55) as u8)
    } else {
        None
    }
}

/// The value of the hex digit `c`, if it is one.
pub fn hex_value_of(c: u8) -> (value: Option<u8>)
    ensures
        value == hex_value(c),
        value matches Some(v) ==> v < 16,
{
    if 48 <= c && c <= 57 {
        Some(c - 48)
    } else if 97 <= c && c <= 102 {
        Some(c - 87)
    } else if 65 <= c && c <= 70 {
        Some(c - 55)
    } else {
        None
    }
}

/// The ASCII bytes of a digit `hex_char` writes.
pub proof fn lemma_hex_char_reads_back(n: u8)
    requires
        n < 16,
    ensures
        (hex_char(n) as u8) as char == hex_char(n),
        hex_value(hex_char(n) as u8) == Some(n),
{
}

/// The byte `byte` written out in lowercase hex: two digits, high half first.
#[verifier::spinoff_prover]
pub fn hex_of_byte(byte: u8) -> (hex: String)
    ensures
        hex@ == hex_text(seq![byte]),
{
    let mut hex = String::new();
    proof {
        assert(byte >> 4u8 == byte / 16) by (bit_vector);
        assert(byte & 0x0fu8 == byte % 16) by (bit_vector);
        assert(seq![byte].drop_last() =~= Seq::<u8>::empty());
    }
    let high = hex_digit(byte >> 4u8);
    let low = hex_digit(byte & 0x0fu8);
    push_char(&mut hex, high);
    push_char(&mut hex, low);
    assert(hex_text(Seq::<u8>::empty()) == Seq::<char>::empty());
    assert(seq![byte].last() == byte);
    assert(hex_text(seq![byte]) == hex_text(Seq::<u8>::empty()) + seq![
        hex_char(byte / 16),
        hex_char(byte % 16),
    ]);
    assert(hex@ =~= hex_text(seq![byte]));
    hex
}

/// `bytes` written out in lowercase hex, two digits a byte.
pub fn hex_of_bytes(bytes: &[u8]) -> (hex: String)
    ensures
        hex@ == hex_text(bytes@),
{
    let mut hex = String::new();
    let mut i: usize = 0;
    while i < bytes.len()
        invariant
            i <= bytes@.len(),
            hex@ == hex_text(bytes@.take(i as int)),
        decreases bytes.len() - i,
    {
        let byte = bytes[i];
        proof {
            assert(bytes@.take(i + 1).drop_last() =~= bytes@.take(i as int));
            assert(byte >> 4u8 == byte / 16) by (bit_vector);
            assert(byte & 0x0fu8 == byte % 16) by (bit_vector);
        }
        push_char(&mut hex, hex_digit(byte >> 4u8));
        push_char(&mut hex, hex_digit(byte & 0x0fu8));
        i = i + 1;
        assert(hex@ =~= hex_text(bytes@.take(i as int)));
    }
    assert(bytes@.take(i as int) =~= bytes@);
    hex
}

} // verus!

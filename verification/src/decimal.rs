//! Numbers written out in decimal, and read back only as they are written.
use vstd::prelude::*;

use crate::text::push_char;

verus! {

/// The ASCII byte of the decimal digit `d`.
pub open spec fn digit_byte(d: nat) -> u8 {
    (48 + d) as u8
}

/// `n` written out in decimal, most significant digit first, as ASCII bytes.
pub open spec fn decimal_bytes(n: nat) -> Seq<u8>
    decreases n,
{
    if n < 10 {
        seq![digit_byte(n)]
    } else {
        decimal_bytes(n / 10).push(digit_byte(n % 10))
    }
}

/// `n` written out in decimal, most significant digit first.
pub open spec fn decimal_chars(n: nat) -> Seq<char> {
    decimal_bytes(n).map_values(|b: u8| b as char)
}

/// Whether `b` is the ASCII byte of a decimal digit.
pub open spec fn is_digit(b: u8) -> bool {
    48 <= b <= 57
}

/// The number the decimal digits `s` stand for.
pub open spec fn digits_value(s: Seq<u8>) -> nat
    decreases s.len(),
{
    if s.len() == 0 {
        0
    } else {
        digits_value(s.drop_last()) * 10 + (s.last() - 48) as nat
    }
}

/// Whether `s` is a number written the one way it is written: at least one digit, all of them
/// digits, and no zero in front of another digit.
pub open spec fn canonical(s: Seq<u8>) -> bool {
    &&& s.len() > 0
    &&& forall|i: int| 0 <= i < s.len() ==> is_digit(#[trigger] s[i])
    &&& (s.len() == 1 || s[0] != 48u8)
}

/// A number written out is written the one way numbers are, and reads back as itself.
pub proof fn lemma_decimal_reads_back(n: nat)
    ensures
        canonical(decimal_bytes(n)),
        digits_value(decimal_bytes(n)) == n,
        decimal_bytes(n).len() >= 1,
        n >= 10 ==> decimal_bytes(n).len() >= 2,
        decimal_bytes(n)[0] == 48u8 ==> n == 0,
    decreases n,
{
    if n >= 10 {
        lemma_decimal_reads_back(n / 10);
        let front = decimal_bytes(n / 10);
        let all = decimal_bytes(n);
        assert(all.drop_last() =~= front);
        assert(all[0] == front[0]);
        assert(all.last() == digit_byte(n % 10));
        assert((all.last() - 48) as nat == n % 10);
        assert(n == (n / 10) * 10 + n % 10);
        assert(digits_value(front) == n / 10);
        assert(digits_value(all) == digits_value(front) * 10 + (all.last() - 48) as nat);
        assert forall|i: int| 0 <= i < all.len() implies is_digit(#[trigger] all[i]) by {
            if i < front.len() {
                assert(all[i] == front[i]);
            }
        }
    } else {
        assert(decimal_bytes(n).drop_last() =~= Seq::<u8>::empty());
        assert(digits_value(Seq::<u8>::empty()) == 0);
        assert(decimal_bytes(n).last() == digit_byte(n));
        assert(digits_value(decimal_bytes(n)) == 0 * 10 + (digit_byte(n) - 48) as nat);
    }
}

/// What a number written the one way reads as is written out as that very text.
#[verifier::spinoff_prover]
pub proof fn lemma_canonical_writes_back(s: Seq<u8>)
    requires
        canonical(s),
    ensures
        decimal_bytes(digits_value(s)) == s,
        s.len() >= 2 ==> digits_value(s) >= 10,
    decreases s.len(),
{
    if s.len() == 1 {
        assert(s.drop_last() =~= Seq::<u8>::empty());
        assert(digits_value(s.drop_last()) == 0);
        let d = (s.last() - 48) as nat;
        assert(digits_value(s) == d);
        assert(d < 10);
        assert(decimal_bytes(d) == seq![digit_byte(d)]);
        assert(digit_byte(d) == s[0]);
        assert(decimal_bytes(digits_value(s)) =~= s);
    } else {
        let front = s.drop_last();
        assert(front[0] == s[0]);
        assert forall|i: int| 0 <= i < front.len() implies is_digit(#[trigger] front[i]) by {
            assert(front[i] == s[i]);
        }
        lemma_canonical_writes_back(front);
        if front.len() == 1 {
            assert(front[0] != 48u8);
        }
        let v = digits_value(s);
        assert(v / 10 == digits_value(front));
        assert(v % 10 == (s.last() - 48) as nat);
        assert(decimal_bytes(v) =~= s);
    }
}

/// The digits of a number written out so far never shrink as more of them are read.
pub proof fn lemma_digits_value_grows(s: Seq<u8>, k: int)
    requires
        0 <= k <= s.len(),
        forall|i: int| 0 <= i < s.len() ==> is_digit(#[trigger] s[i]),
    ensures
        digits_value(s.take(k)) <= digits_value(s),
    decreases s.len() - k,
{
    if k < s.len() {
        lemma_digits_value_grows(s, k + 1);
        assert(s.take(k + 1).drop_last() =~= s.take(k));
    } else {
        assert(s.take(k) =~= s);
    }
}

/// `n` written out in decimal.
pub fn decimal_text(n: u64) -> (text: String)
    ensures
        text@ == decimal_chars(n as nat),
{
    let mut reversed: Vec<char> = Vec::new();
    let mut rest: u64 = n;
    while rest >= 10
        invariant
            decimal_bytes(n as nat) == decimal_bytes(rest as nat) + reversed@.reverse().map_values(
                |c: char| c as u8,
            ),
            forall|i: int| 0 <= i < reversed@.len() ==> (#[trigger] reversed@[i]) as u8 as char == reversed@[i],
        decreases rest,
    {
        let digit = (rest % 10) as u8;
        let ghost before = reversed@;
        reversed.push((48u8 + digit) as char);
        proof {
            assert(decimal_bytes(rest as nat) == decimal_bytes((rest / 10) as nat).push(digit_byte((rest % 10) as nat)));
            assert(reversed@.reverse() =~= seq![(48u8 + digit) as char] + before.reverse());
            assert(((48u8 + digit) as char) as u8 == digit_byte((rest % 10) as nat));
            assert(reversed@.reverse().map_values(|c: char| c as u8) =~= seq![digit_byte((rest % 10) as nat)]
                + before.reverse().map_values(|c: char| c as u8));
            assert(decimal_bytes((rest / 10) as nat).push(digit_byte((rest % 10) as nat)) + before.reverse().map_values(|c: char| c as u8)
                =~= decimal_bytes((rest / 10) as nat) + reversed@.reverse().map_values(|c: char| c as u8));
        }
        rest = rest / 10;
    }
    let mut text = String::new();
    push_char(&mut text, (48u8 + rest as u8) as char);
    let mut i: usize = reversed.len();
    while i > 0
        invariant
            i <= reversed@.len(),
            forall|k: int| 0 <= k < reversed@.len() ==> (#[trigger] reversed@[k]) as u8 as char == reversed@[k],
            text@ == seq![(48u8 + rest as u8) as char] + reversed@.subrange(i as int, reversed@.len() as int).reverse(),
        decreases i,
    {
        i = i - 1;
        let ghost before = text@;
        push_char(&mut text, reversed[i]);
        assert(reversed@.subrange(i as int, reversed@.len() as int).reverse() =~= reversed@.subrange(
            i + 1,
            reversed@.len() as int,
        ).reverse().push(reversed@[i as int]));
    }
    proof {
        assert(reversed@.subrange(0, reversed@.len() as int) =~= reversed@);
        let digits = decimal_bytes(n as nat);
        let tail = reversed@.reverse();
        assert(decimal_bytes(rest as nat) =~= seq![digit_byte(rest as nat)]);
        assert(text@ =~= decimal_chars(n as nat)) by {
            assert forall|k: int| 0 <= k < text@.len() implies text@[k] == decimal_chars(n as nat)[k] by {
                if k > 0 {
                    assert(tail[k - 1] == reversed@[reversed@.len() - k]);
                }
            }
        }
    }
    text
}

/// The number the ASCII text `bytes` writes, read only where it is written the one way numbers
/// are written and fits in a `u64`.
pub open spec fn number_of(bytes: Seq<u8>) -> Option<u64> {
    if canonical(bytes) && digits_value(bytes) <= u64::MAX {
        Some(digits_value(bytes) as u64)
    } else {
        None
    }
}

/// Reads the number `bytes` writes, where it is written the one way numbers are written and fits
/// in a `u64`.
pub fn read_number(bytes: &[u8]) -> (number: Option<u64>)
    ensures
        number == number_of(bytes@),
{
    let len = bytes.len();
    if len == 0 || (len > 1 && bytes[0] == 48u8) {
        return None;
    }
    let mut value: u64 = 0;
    let mut i: usize = 0;
    while i < len
        invariant
            len == bytes@.len(),
            len > 0,
            len == 1 || bytes@[0] != 48u8,
            i <= len,
            forall|k: int| 0 <= k < i ==> is_digit(#[trigger] bytes@[k]),
            value == digits_value(bytes@.take(i as int)),
        decreases len - i,
    {
        let b = bytes[i];
        if b < 48u8 || b > 57u8 {
            assert(!is_digit(bytes@[i as int]));
            return None;
        }
        let d = (b - 48u8) as u64;
        assert(bytes@.take(i + 1).drop_last() =~= bytes@.take(i as int));
        if value > (u64::MAX - d) / 10 {
            proof {
                assert(digits_value(bytes@.take(i + 1)) > u64::MAX) by (nonlinear_arith)
                    requires
                        digits_value(bytes@.take(i + 1)) == value * 10 + d,
                        value > (u64::MAX - d) / 10,
                        d <= 9,
                ;
                if canonical(bytes@) {
                    lemma_digits_value_grows(bytes@, i + 1);
                }
            }
            return None;
        }
        value = value * 10 + d;
        i = i + 1;
    }
    assert(bytes@.take(len as int) =~= bytes@);
    Some(value)
}

} // verus!

//! Addressing the daemon an action is spoken to, and the Vault an address names.
//!
//! There are two spellings for where a Vault is. One is a bare address (a host, a host and a
//! port, or a port alone), which says where a daemon answers and nothing about which Vault under
//! it is meant. The other is the `rola://<host>[:<port>]/<sub-vault>` link, which says both.
//! What is left out is filled in: an address without a port takes the port a Vault listens on,
//! and one without a sub-vault names the root.
//!
//! Telling an ip from a name is the standard library's network parsing, which the caller does;
//! what is here is every other step of reading and writing an address.
use vstd::prelude::*;
use vstd::string::StrSliceExecFns;

use crate::decimal::{decimal_bytes, decimal_chars, digits_value, is_digit, lemma_decimal_reads_back};
use crate::errors::AddrError;
use crate::text::{push_char, push_text};

verus! {

/// The port a Vault listens on unless it is told otherwise.
pub const VAULT_DEFAULT_PORT: u16 = 7210;

/// The sub-vault an address names when it names none: the root.
pub const ROOT_SUB_VAULT: &'static str = "";

/// The host a bare port is a port of.
pub const LOCALHOST: &'static str = "127.0.0.1";

/// The characters of `text`.
pub fn chars_of(text: &str) -> (chars: Vec<char>)
    ensures
        chars@ == text@,
{
    let n = text.unicode_len();
    let mut chars: Vec<char> = Vec::new();
    let mut i: usize = 0;
    while i < n
        invariant
            i <= n,
            n == text@.len(),
            chars@ == text@.take(i as int),
        decreases n - i,
    {
        chars.push(text.get_char(i));
        i = i + 1;
        assert(chars@ =~= text@.take(i as int));
    }
    assert(text@.take(n as int) =~= text@);
    chars
}

/// The text of `chars`.
pub fn text_of(chars: &[char]) -> (text: String)
    ensures
        text@ == chars@,
{
    let mut text = String::new();
    let mut i: usize = 0;
    while i < chars.len()
        invariant
            i <= chars@.len(),
            text@ == chars@.take(i as int),
        decreases chars.len() - i,
    {
        push_char(&mut text, chars[i]);
        i = i + 1;
        assert(text@ =~= chars@.take(i as int));
    }
    assert(chars@.take(i as int) =~= chars@);
    text
}

/// The scheme a link starts with: `rola://`.
pub open spec fn scheme() -> Seq<char> {
    seq!['r', 'o', 'l', 'a', ':', '/', '/']
}

/// Where `c` first appears in `text` at or after `from`, if it does.
pub open spec fn first_at(text: Seq<char>, c: char, from: int) -> Option<int>
    decreases text.len() - from,
{
    if from >= text.len() {
        None
    } else if text[from] == c {
        Some(from)
    } else {
        first_at(text, c, from + 1)
    }
}

/// The authority and the sub-vault `text` names: after the scheme, everything up to the first
/// `/` is the authority and everything after it the sub-vault, which is the root where it is
/// empty or not there; without the scheme, the whole of it is the authority, under the root.
pub open spec fn link_parts(text: Seq<char>) -> (Seq<char>, Seq<char>) {
    if text.len() >= 7 && text.subrange(0, 7) == scheme() {
        let link = text.subrange(7, text.len() as int);
        match first_at(link, '/', 0) {
            Some(at) => (link.subrange(0, at), link.subrange(at + 1, link.len() as int)),
            None => (link, Seq::empty()),
        }
    } else {
        (text, Seq::empty())
    }
}

/// Where `c` first appears at or after `from`, where nothing from `from` up to `at` is `c` and
/// `at` is.
proof fn lemma_first_at(text: Seq<char>, c: char, from: int, at: int)
    requires
        0 <= from <= at < text.len(),
        text[at] == c,
        forall|j: int| from <= j < at ==> text[j] != c,
    ensures
        first_at(text, c, from) == Some(at),
    decreases at - from,
{
    if from < at {
        lemma_first_at(text, c, from + 1, at);
    }
}

/// A link is split back into the authority and the sub-vault it was written with, where the
/// authority holds no `/`.
pub proof fn lemma_link_splits_back(authority: Seq<char>, sub: Seq<char>)
    requires
        forall|i: int| 0 <= i < authority.len() ==> authority[i] != '/',
    ensures
        link_parts(scheme() + authority + seq!['/'] + sub) == (authority, sub),
{
    let text = scheme() + authority + seq!['/'] + sub;
    assert(text.subrange(0, 7) =~= scheme());
    let link = text.subrange(7, text.len() as int);
    assert(link =~= authority + seq!['/'] + sub);
    assert(link[authority.len() as int] == '/');
    assert forall|j: int| 0 <= j < authority.len() implies link[j] != '/' by {
        assert(link[j] == authority[j]);
    }
    lemma_first_at(link, '/', 0, authority.len() as int);
    assert(link.subrange(0, authority.len() as int) =~= authority);
    assert(link.subrange(authority.len() as int + 1, link.len() as int) =~= sub);
}

/// Where `c` first appears in `text` at or after `from`.
fn find_char(text: &Vec<char>, c: char, from: usize) -> (at: Option<usize>)
    requires
        from <= text@.len(),
    ensures
        at matches Some(i) ==> first_at(text@, c, from as int) == Some(i as int) && from <= i
            < text@.len(),
        at is None ==> first_at(text@, c, from as int) is None,
    decreases text@.len() - from,
{
    if from >= text.len() {
        None
    } else if text[from] == c {
        Some(from)
    } else {
        find_char(text, c, from + 1)
    }
}

/// The authority and the sub-vault `text` names.
pub fn split_link(text: &str) -> (parts: (String, String))
    ensures
        (parts.0@, parts.1@) == link_parts(text@),
{
    let chars = chars_of(text);
    let n = chars.len();
    let scheme_found = n >= 7 && chars[0] == 'r' && chars[1] == 'o' && chars[2] == 'l' && chars[3] == 'a'
        && chars[4] == ':' && chars[5] == '/' && chars[6] == '/';
    proof {
        if scheme_found {
            assert(text@.subrange(0, 7) =~= scheme());
        } else if n >= 7 && text@.subrange(0, 7) == scheme() {
            assert(text@.subrange(0, 7)[0] == text@[0]);
            assert(text@.subrange(0, 7)[1] == text@[1]);
            assert(text@.subrange(0, 7)[2] == text@[2]);
            assert(text@.subrange(0, 7)[3] == text@[3]);
            assert(text@.subrange(0, 7)[4] == text@[4]);
            assert(text@.subrange(0, 7)[5] == text@[5]);
            assert(text@.subrange(0, 7)[6] == text@[6]);
        }
    }
    if !scheme_found {
        return (text_of(chars.as_slice()), String::new());
    }
    let mut link: Vec<char> = Vec::new();
    let mut i: usize = 7;
    while i < n
        invariant
            7 <= i <= n,
            n == chars@.len(),
            link@ == chars@.subrange(7, i as int),
        decreases n - i,
    {
        link.push(chars[i]);
        i = i + 1;
        assert(link@ =~= chars@.subrange(7, i as int));
    }
    match find_char(&link, '/', 0) {
        Some(at) => {
            let authority = text_of(&link.as_slice()[0..at]);
            let sub = text_of(&link.as_slice()[at + 1..link.len()]);
            (authority, sub)
        },
        None => (text_of(link.as_slice()), String::new()),
    }
}

/// Whether `c` may stand in a host's name: a letter or a digit of ASCII, `.`, `-` or `_`.
pub open spec fn host_char(c: char) -> bool {
    ('a' <= c <= 'z') || ('A' <= c <= 'Z') || ('0' <= c <= '9') || c == '.' || c == '-' || c == '_'
}

/// Whether `name` is a host's name: not empty, and made of what a name is made of.
pub open spec fn is_host_name(name: Seq<char>) -> bool {
    name.len() > 0 && forall|i: int| 0 <= i < name.len() ==> host_char(#[trigger] name[i])
}

/// Whether `name` is a host's name.
pub fn is_host(name: &Vec<char>) -> (host: bool)
    ensures
        host == is_host_name(name@),
{
    if name.len() == 0 {
        return false;
    }
    let mut i: usize = 0;
    while i < name.len()
        invariant
            i <= name@.len(),
            forall|k: int| 0 <= k < i ==> host_char(#[trigger] name@[k]),
        decreases name.len() - i,
    {
        let c = name[i];
        if !(('a' <= c && c <= 'z') || ('A' <= c && c <= 'Z') || ('0' <= c && c <= '9') || c == '.' || c
            == '-' || c == '_') {
            assert(!host_char(name@[i as int]));
            return false;
        }
        i = i + 1;
    }
    true
}

/// Whether `text` is all decimal digits.
pub open spec fn all_digits(text: Seq<char>) -> bool {
    forall|i: int| 0 <= i < text.len() ==> '0' <= #[trigger] text[i] <= '9'
}

/// The value of the decimal digits `digits`.
pub open spec fn digits_number(digits: Seq<char>) -> nat
    decreases digits.len(),
{
    if digits.len() == 0 {
        0
    } else {
        digits_number(digits.drop_last()) * 10 + (digits.last() as nat - 48) as nat
    }
}

/// The port `text` reads as, the way a `u16` is read from text: an optional `+`, then at least
/// one digit, coming to no more than a `u16` holds.
pub open spec fn port_of(text: Seq<char>) -> Option<u16> {
    let digits = if text.len() > 0 && text[0] == '+' { text.subrange(1, text.len() as int) } else { text };
    port_of_digits(digits)
}

/// The port the decimal digits `digits` come to, where there is at least one and they come to
/// no more than a `u16` holds.
pub open spec fn port_of_digits(digits: Seq<char>) -> Option<u16> {
    if digits.len() > 0 && all_digits(digits) && digits_number(digits) <= u16::MAX {
        Some(digits_number(digits) as u16)
    } else {
        None
    }
}

/// The port `text` reads as.
pub fn read_port(text: &[char]) -> (port: Option<u16>)
    ensures
        port == port_of(text@),
{
    let start: usize = if text.len() > 0 && text[0] == '+' { 1 } else { 0 };
    let ghost digits = text@.subrange(start as int, text@.len() as int);
    assert(start == 0 ==> digits =~= text@);
    assert(port_of(text@) == port_of_digits(digits));
    if text.len() <= start {
        return None;
    }
    let mut value: u32 = 0;
    let mut i: usize = start;
    while i < text.len()
        invariant
            start <= i <= text@.len(),
            digits == text@.subrange(start as int, text@.len() as int),
            port_of(text@) == port_of_digits(digits),
            forall|k: int| start <= k < i ==> '0' <= #[trigger] text@[k] <= '9',
            value == digits_number(text@.subrange(start as int, i as int)),
            value <= u16::MAX,
        decreases text.len() - i,
    {
        let c = text[i];
        if !('0' <= c && c <= '9') {
            assert(!all_digits(digits)) by {
                assert(digits[i - start] == text@[i as int]);
            }
            return None;
        }
        assert(text@.subrange(start as int, i + 1).drop_last() =~= text@.subrange(start as int, i as int));
        let next = value * 10 + ((c as u32) - 48);
        if next > 65535 {
            proof {
                if all_digits(digits) {
                    lemma_digits_number_grows(digits, i + 1 - start);
                    assert(digits.take(i + 1 - start) =~= text@.subrange(start as int, i + 1));
                }
            }
            return None;
        }
        value = next;
        i = i + 1;
    }
    assert(text@.subrange(start as int, i as int) =~= digits);
    Some(value as u16)
}

/// Decimal digits read as characters come to what they come to as bytes.
proof fn lemma_digit_chars_read_as_bytes(s: Seq<u8>)
    requires
        forall|i: int| 0 <= i < s.len() ==> is_digit(#[trigger] s[i]),
    ensures
        all_digits(s.map_values(|b: u8| b as char)),
        digits_number(s.map_values(|b: u8| b as char)) == digits_value(s),
    decreases s.len(),
{
    let chars = s.map_values(|b: u8| b as char);
    assert forall|i: int| 0 <= i < chars.len() implies '0' <= #[trigger] chars[i] <= '9' by {
        assert(is_digit(s[i]));
    }
    if s.len() > 0 {
        assert forall|i: int| 0 <= i < s.drop_last().len() implies is_digit(#[trigger] s.drop_last()[i]) by {
            assert(s.drop_last()[i] == s[i]);
        }
        lemma_digit_chars_read_as_bytes(s.drop_last());
        assert(chars.drop_last() =~= s.drop_last().map_values(|b: u8| b as char));
        assert(is_digit(s.last()));
        assert(chars.last() == s.last() as char);
    }
}

/// Every number a `u16` holds, written out in decimal, reads as that port, with or without a
/// `+` in front; a number written out that is more than a `u16` holds reads as no port.
pub proof fn lemma_every_port_reads_as_written(n: nat)
    ensures
        port_of(decimal_chars(n)) == (if n <= u16::MAX { Some(n as u16) } else { None::<u16> }),
        port_of(seq!['+'] + decimal_chars(n)) == (if n <= u16::MAX { Some(n as u16) } else { None::<u16> }),
{
    lemma_decimal_reads_back(n);
    let bytes = decimal_bytes(n);
    let chars = decimal_chars(n);
    lemma_digit_chars_read_as_bytes(bytes);
    assert(chars.len() > 0);
    assert(is_digit(bytes[0]));
    assert(chars[0] == bytes[0] as char);
    assert(chars[0] != '+');
    let plus = seq!['+'] + chars;
    assert(plus.subrange(1, plus.len() as int) =~= chars);
}

/// A zero in front of decimal digits does not change what they come to.
proof fn lemma_leading_zero(digits: Seq<char>)
    ensures
        digits_number(seq!['0'] + digits) == digits_number(digits),
    decreases digits.len(),
{
    let zeroed = seq!['0'] + digits;
    if digits.len() == 0 {
        assert(zeroed.drop_last() =~= Seq::<char>::empty());
        assert(zeroed.last() == '0');
        assert(digits_number(Seq::<char>::empty()) == 0);
        assert(('0' as nat - 48) as nat == 0);
    } else {
        lemma_leading_zero(digits.drop_last());
        assert(zeroed.drop_last() =~= seq!['0'] + digits.drop_last());
        assert(zeroed.last() == digits.last());
    }
}

/// A port is read the way a `u16` is: zeros in front of the digits change nothing, and a text
/// that is empty, a lone `+`, or holds anything but digits after an optional `+` is no port.
pub proof fn lemma_ports_read_as_numbers(text: Seq<char>)
    ensures
        all_digits(text) && text.len() > 0 ==> port_of(seq!['0'] + text) == port_of(text),
        port_of(Seq::empty()) is None,
        port_of(seq!['+']) is None,
        (exists|i: int|
            0 <= i < text.len() && !('0' <= #[trigger] text[i] <= '9') && !(i == 0 && text[i] == '+'))
            ==> port_of(text) is None,
{
    let zeroed = seq!['0'] + text;
    lemma_leading_zero(text);
    assert(zeroed[0] == '0');
    if all_digits(text) {
        assert forall|i: int| 0 <= i < zeroed.len() implies '0' <= #[trigger] zeroed[i] <= '9' by {
            if i > 0 {
                assert(zeroed[i] == text[i - 1]);
            }
        }
        if text.len() > 0 {
            assert(text[0] != '+');
        }
    }
    assert(seq!['+'].subrange(1, 1) =~= Seq::<char>::empty());
    if exists|i: int| 0 <= i < text.len() && !('0' <= #[trigger] text[i] <= '9') && !(i == 0 && text[i] == '+') {
        let i = choose|i: int| 0 <= i < text.len() && !('0' <= #[trigger] text[i] <= '9') && !(i == 0 && text[i] == '+');
        if text.len() > 0 && text[0] == '+' {
            let digits = text.subrange(1, text.len() as int);
            assert(digits[i - 1] == text[i]);
        }
    }
}

/// A host's name is any name, not empty, of ASCII letters, digits, `.`, `-` and `_`: nothing
/// more and nothing less.
pub proof fn lemma_host_names_are_spelled_so(name: Seq<char>)
    ensures
        is_host_name(name) <==> name.len() > 0 && forall|i: int|
            0 <= i < name.len() ==> {
                let c = #[trigger] name[i];
                ||| 'a' <= c <= 'z'
                ||| 'A' <= c <= 'Z'
                ||| '0' <= c <= '9'
                ||| c == '.'
                ||| c == '-'
                ||| c == '_'
            },
        is_host_name(seq!['-']) && is_host_name(seq!['.']) && is_host_name(seq!['_']),
{
}

/// The value of a run of digits is no smaller than the value of any of its prefixes.
pub proof fn lemma_digits_number_grows(digits: Seq<char>, k: int)
    requires
        0 <= k <= digits.len(),
        all_digits(digits),
    ensures
        digits_number(digits.take(k)) <= digits_number(digits),
    decreases digits.len() - k,
{
    if k < digits.len() {
        lemma_digits_number_grows(digits, k + 1);
        assert(digits.take(k + 1).drop_last() =~= digits.take(k));
    } else {
        assert(digits.take(k) =~= digits);
    }
}

/// Where `c` last appears in `text`, if it does.
pub open spec fn last_at(text: Seq<char>, c: char) -> Option<int>
    decreases text.len(),
{
    if text.len() == 0 {
        None
    } else if text.last() == c {
        Some(text.len() - 1)
    } else {
        last_at(text.drop_last(), c)
    }
}

/// The host and port `authority` names, given what the standard library read it as: a socket
/// address (`socket`, its ip written out and its port), or else an ip (`ip`, written out).
///
/// Failing both, a run of digits alone is a port on this machine; `<host>:<port>` is a host and
/// a port; a host alone takes the port a Vault listens on; anything else names no place.
pub open spec fn authority_parts(
    authority: Seq<char>,
    socket: Option<(Seq<char>, u16)>,
    ip: Option<Seq<char>>,
) -> Option<(Seq<char>, u16)> {
    if socket is Some {
        socket
    } else if ip is Some {
        Some((ip->0, VAULT_DEFAULT_PORT))
    } else if all_digits(authority) {
        match port_of(authority) {
            Some(port) => Some((LOCALHOST@, port)),
            None => None,
        }
    } else {
        match last_at(authority, ':') {
            Some(at) => match port_of(authority.subrange(at + 1, authority.len() as int)) {
                Some(port) => if is_host_name(authority.subrange(0, at)) {
                    Some((authority.subrange(0, at), port))
                } else {
                    None
                },
                None => None,
            },
            None => if is_host_name(authority) {
                Some((authority, VAULT_DEFAULT_PORT))
            } else {
                None
            },
        }
    }
}

/// Where `c` last appears in `text`.
fn find_last(text: &Vec<char>, c: char) -> (at: Option<usize>)
    ensures
        at matches Some(i) ==> last_at(text@, c) == Some(i as int) && i < text@.len(),
        at is None ==> last_at(text@, c) is None,
{
    let mut i: usize = text.len();
    assert(text@.take(i as int) =~= text@);
    while i > 0
        invariant
            i <= text@.len(),
            last_at(text@, c) == last_at(text@.take(i as int), c),
        decreases i,
    {
        let ghost prefix = text@.take(i as int);
        if text[i - 1] == c {
            return Some(i - 1);
        }
        assert(prefix.drop_last() =~= text@.take(i - 1));
        i = i - 1;
    }
    assert(text@.take(0) =~= Seq::<char>::empty());
    None
}

/// The host and port `authority` names, given what the standard library read it as.
pub fn read_authority(
    authority: &str,
    socket: Option<(String, u16)>,
    ip: Option<String>,
) -> (parts: Option<(String, u16)>)
    ensures
        parts matches Some((host, port)) ==> authority_parts(
            authority@,
            match socket { Some((a, p)) => Some((a@, p)), None => None },
            match ip { Some(a) => Some(a@), None => None },
        ) == Some((host@, port)),
        parts is None ==> authority_parts(
            authority@,
            match socket { Some((a, p)) => Some((a@, p)), None => None },
            match ip { Some(a) => Some(a@), None => None },
        ) is None,
{
    match socket {
        Some(found) => {
            return Some(found);
        },
        None => {},
    }
    match ip {
        Some(found) => {
            return Some((found, VAULT_DEFAULT_PORT));
        },
        None => {},
    }
    let chars = chars_of(authority);
    let mut digits = true;
    let mut i: usize = 0;
    while i < chars.len()
        invariant
            i <= chars@.len(),
            digits == forall|k: int| 0 <= k < i ==> '0' <= #[trigger] chars@[k] <= '9',
        decreases chars.len() - i,
    {
        let c = chars[i];
        digits = digits && '0' <= c && c <= '9';
        i = i + 1;
    }
    if digits {
        return match read_port(chars.as_slice()) {
            Some(port) => Some((LOCALHOST.to_owned(), port)),
            None => None,
        };
    }
    match find_last(&chars, ':') {
        Some(at) => {
            let port_text = &chars.as_slice()[at + 1..chars.len()];
            match read_port(port_text) {
                Some(port) => {
                    let mut host: Vec<char> = Vec::new();
                    let mut k: usize = 0;
                    while k < at
                        invariant
                            k <= at,
                            at < chars@.len(),
                            host@ == chars@.subrange(0, k as int),
                        decreases at - k,
                    {
                        host.push(chars[k]);
                        k = k + 1;
                        assert(host@ =~= chars@.subrange(0, k as int));
                    }
                    assert(port_text@ =~= chars@.subrange(at + 1, chars@.len() as int));
                    if is_host(&host) {
                        Some((text_of(host.as_slice()), port))
                    } else {
                        None
                    }
                },
                None => {
                    assert(port_text@ =~= chars@.subrange(at + 1, chars@.len() as int));
                    None
                },
            }
        },
        None => {
            if is_host(&chars) {
                Some((text_of(chars.as_slice()), VAULT_DEFAULT_PORT))
            } else {
                None
            }
        },
    }
}

/// Where a Vault is: the host and port its daemon answers at, and which Vault under it is meant,
/// with the words it was written in kept beside them.
#[derive(Debug, Clone)]
pub struct VaultAddress {
    /// What the caller wrote.
    raw: String,
    /// The host.
    addr: String,
    /// The port.
    port: u16,
    /// The sub-vault: which Vault under the daemon.
    sub_vault: String,
}

impl View for VaultAddress {
    /// What was written, the host, the port and the sub-vault.
    type V = (Seq<char>, Seq<char>, u16, Seq<char>);

    closed spec fn view(&self) -> (Seq<char>, Seq<char>, u16, Seq<char>) {
        (self.raw@, self.addr@, self.port, self.sub_vault@)
    }
}

/// How an address is written as a link, where `v6` says whether its host is an ipv6 address:
/// the scheme, the host (in brackets where it is ipv6), the port where it is not the one a Vault
/// listens on, and the sub-vault after a slash.
pub open spec fn link_text(addr: Seq<char>, port: u16, sub: Seq<char>, v6: bool) -> Seq<char> {
    scheme() + host_text(addr, v6) + (if port != VAULT_DEFAULT_PORT { seq![':'] + crate::decimal::decimal_chars(port as nat) } else { Seq::empty() })
        + seq!['/'] + sub
}

/// How a host is written where a port may follow it: in brackets where it is ipv6, so that its
/// colons are not taken for the port's.
pub open spec fn host_text(addr: Seq<char>, v6: bool) -> Seq<char> {
    if v6 { seq!['['] + addr + seq![']'] } else { addr }
}

impl VaultAddress {
    /// The address `raw` names, read as the host `addr`, the port `port` and the sub-vault
    /// `sub_vault`.
    pub fn from_parts(raw: String, addr: String, port: u16, sub_vault: String) -> (address: VaultAddress)
        ensures
            address@ == (raw@, addr@, port, sub_vault@),
    {
        VaultAddress { raw, addr, port, sub_vault }
    }

    /// Reads `text`, given what the standard library read its authority (the first part of
    /// [`split_link`]) as: a socket address, or else an ip.
    ///
    /// Returns the target back as an `AddrError` where it names neither a host nor a port.
    pub fn read(text: &str, socket: Option<(String, u16)>, ip: Option<String>) -> (address: Result<VaultAddress, AddrError>)
        ensures
            address matches Ok(a) ==> a@.0 == text@ && a@.3 == link_parts(text@).1 && authority_parts(
                link_parts(text@).0,
                match socket { Some((h, p)) => Some((h@, p)), None => None },
                match ip { Some(h) => Some(h@), None => None },
            ) == Some((a@.1, a@.2)),
            address matches Err(e) ==> e@ == text@ && authority_parts(
                link_parts(text@).0,
                match socket { Some((h, p)) => Some((h@, p)), None => None },
                match ip { Some(h) => Some(h@), None => None },
            ) is None,
    {
        let (authority, sub) = split_link(text);
        match read_authority(authority.as_str(), socket, ip) {
            Some((addr, port)) => Ok(VaultAddress { raw: text.to_owned(), addr, port, sub_vault: sub }),
            None => Err(AddrError::new(text.to_owned())),
        }
    }

    /// What the caller wrote.
    pub fn raw(&self) -> (raw: &str)
        ensures
            raw@ == self@.0,
    {
        self.raw.as_str()
    }

    /// The host.
    pub fn address(&self) -> (addr: &str)
        ensures
            addr@ == self@.1,
    {
        self.addr.as_str()
    }

    /// The port.
    pub fn port(&self) -> (port: u16)
        ensures
            port == self@.2,
    {
        self.port
    }

    /// Which Vault under the daemon is meant.
    pub fn sub(&self) -> (sub: &str)
        ensures
            sub@ == self@.3,
    {
        self.sub_vault.as_str()
    }

    /// Changes the host; what was written is not rewritten.
    pub fn set_address(&mut self, address: String)
        ensures
            final(self)@ == (old(self)@.0, address@, old(self)@.2, old(self)@.3),
    {
        self.addr = address;
    }

    /// Changes the port; what was written is not rewritten.
    pub fn set_port(&mut self, port: u16)
        ensures
            final(self)@ == (old(self)@.0, old(self)@.1, port, old(self)@.3),
    {
        self.port = port;
    }

    /// Changes the sub-vault; what was written is not rewritten.
    pub fn set_sub(&mut self, sub_vault: String)
        ensures
            final(self)@ == (old(self)@.0, old(self)@.1, old(self)@.2, sub_vault@),
    {
        self.sub_vault = sub_vault;
    }

    /// The host as it is written where a port may follow it, `v6` saying whether it is an ipv6
    /// address.
    fn host(&self, v6: bool) -> (host: String)
        ensures
            host@ == host_text(self@.1, v6),
    {
        let mut host = String::new();
        if v6 {
            push_char(&mut host, '[');
        }
        push_text(&mut host, self.addr.as_str());
        if v6 {
            push_char(&mut host, ']');
        }
        host
    }

    /// Where to knock: the host and the port, without which Vault under the daemon is meant.
    pub fn authority(&self, v6: bool) -> (authority: String)
        ensures
            authority@ == host_text(self@.1, v6) + seq![':'] + crate::decimal::decimal_chars(self@.2 as nat),
    {
        let mut authority = self.host(v6);
        push_char(&mut authority, ':');
        push_text(&mut authority, crate::decimal::decimal_text(self.port as u64).as_str());
        authority
    }

    /// The address written as the link it adds up to.
    pub fn to_string(&self, v6: bool) -> (link: String)
        ensures
            link@ == link_text(self@.1, self@.2, self@.3, v6),
    {
        let mut link = String::new();
        push_text(&mut link, "rola://");
        proof {
            reveal_strlit("rola://");
        }
        push_text(&mut link, self.host(v6).as_str());
        if self.port != VAULT_DEFAULT_PORT {
            push_char(&mut link, ':');
            push_text(&mut link, crate::decimal::decimal_text(self.port as u64).as_str());
        }
        push_char(&mut link, '/');
        push_text(&mut link, self.sub_vault.as_str());
        proof {
            assert("rola://"@ =~= scheme());
            if self.port != VAULT_DEFAULT_PORT {
                assert(link@ =~= link_text(self@.1, self@.2, self@.3, v6));
            } else {
                assert(link@ =~= link_text(self@.1, self@.2, self@.3, v6));
            }
        }
        link
    }

    /// Whether two addresses name one place: the same host, port and sub-vault, whatever either
    /// was written as.
    pub fn same_place(&self, other: &VaultAddress) -> (same: bool)
        ensures
            same == (self@.1 == other@.1 && self@.2 == other@.2 && self@.3 == other@.3),
    {
        self.addr == other.addr && self.port == other.port && self.sub_vault == other.sub_vault
    }
}

} // verus!

//! The configuration a store works from.
//!
//! A store is told how to hold what it holds by the file that makes its directory one, and this is
//! what that file says. What is not said is defaulted rather than refused: a store that says
//! nothing about a thing takes the ordinary answer, so a file that is missing, empty, or written in
//! a way this build does not know still leaves a store that works.
use vstd::prelude::*;

verus! {

/// The largest a pack may grow before another is started, when the configuration says nothing:
/// two GiB.
pub const DEFAULT_MAX_PACK_SIZE: u64 = 2147483648;

/// Whether `c` is whitespace as `char::is_whitespace` and `str::trim` read it: the characters of
/// Unicode's `White_Space` property.
pub open spec fn is_white_space(c: char) -> bool {
    let n = c as u32;
    ||| 9 <= n <= 13
    ||| n == 32
    ||| n == 133
    ||| n == 160
    ||| n == 5760
    ||| 8192 <= n <= 8202
    ||| n == 8232
    ||| n == 8233
    ||| n == 8239
    ||| n == 8287
    ||| n == 12288
}

/// `text` without the whitespace it starts with.
pub open spec fn trim_start(text: Seq<char>) -> Seq<char>
    decreases text.len(),
{
    if text.len() > 0 && is_white_space(text[0]) {
        trim_start(text.drop_first())
    } else {
        text
    }
}

/// `text` without the whitespace it ends with.
pub open spec fn trim_end(text: Seq<char>) -> Seq<char>
    decreases text.len(),
{
    if text.len() > 0 && is_white_space(text.last()) {
        trim_end(text.drop_last())
    } else {
        text
    }
}

/// `text` without the whitespace it starts and ends with.
pub open spec fn trimmed(text: Seq<char>) -> Seq<char> {
    trim_end(trim_start(text))
}

/// `text` with leading and trailing whitespace removed, by `str::trim`.
///
/// The contract claims what the standard library documents the method to do: whitespace, as
/// Unicode's `White_Space` property defines it, is taken off both ends, and nothing else.
#[verifier::external_body]
fn trim_text(text: &str) -> (trimmed_text: &str)
    ensures
        trimmed_text@ == trimmed(text@),
{
    text.trim()
}

/// How many bytes the size written as `text` stands for, as the `size` crate reads it; `None`
/// where it does not read as a size.
pub uninterp spec fn size_in_bytes(text: Seq<char>) -> Option<i64>;

/// The number of bytes `text` says, read by `size::Size::from_str` and given as
/// `size::Size::bytes`.
///
/// The contract names the result and claims only that it is a function of the text: which units
/// are read, and how, is the `size` crate's.
#[verifier::external_body]
fn parse_size(text: &str) -> (bytes: Option<i64>)
    ensures
        bytes == size_in_bytes(text@),
{
    size::Size::from_str(text).ok().map(|size| size.bytes())
}

/// The pack limit a size read from the configuration comes to: the size, where it is a number of
/// bytes above nothing, and [`DEFAULT_MAX_PACK_SIZE`] otherwise.
pub open spec fn limit_of(bytes: Option<i64>) -> u64 {
    match bytes {
        Some(count) => if count > 0 { count as u64 } else { DEFAULT_MAX_PACK_SIZE },
        None => DEFAULT_MAX_PACK_SIZE,
    }
}

/// The pack limit the configuration writes as `written`, or says nothing about.
pub open spec fn pack_limit(written: Option<Seq<char>>) -> u64 {
    match written {
        Some(text) => limit_of(size_in_bytes(trimmed(text))),
        None => DEFAULT_MAX_PACK_SIZE,
    }
}

/// The pack limit a size read from the configuration comes to.
pub fn limit_from(bytes: Option<i64>) -> (limit: u64)
    ensures
        limit == limit_of(bytes),
{
    match bytes {
        Some(count) => if count > 0 { count as u64 } else { DEFAULT_MAX_PACK_SIZE },
        None => DEFAULT_MAX_PACK_SIZE,
    }
}

/// What the configuration of a store says.
///
/// Only what a store is told by is named here: the largest a pack may grow, written as a size
/// such as `"2GiB"`, under the `storage` section.
#[derive(Debug, Clone, PartialEq, Eq)]
pub struct StorageConfig {
    /// The largest a pack may grow before another is started, as the file writes it.
    max_pack_size: Option<String>,
}

impl View for StorageConfig {
    type V = Option<Seq<char>>;

    closed spec fn view(&self) -> Option<Seq<char>> {
        match self.max_pack_size {
            Some(text) => Some(text@),
            None => None,
        }
    }
}

impl StorageConfig {
    /// A configuration that writes the pack limit as `max_pack_size`, or says nothing of it.
    pub fn new(max_pack_size: Option<String>) -> (config: StorageConfig)
        ensures
            config@ == (match max_pack_size {
                Some(text) => Some(text@),
                None => None::<Seq<char>>,
            }),
    {
        StorageConfig { max_pack_size }
    }

    /// The pack limit as the file writes it, if it does.
    pub fn written_max_pack_size(&self) -> (written: Option<String>)
        ensures
            written matches Some(text) ==> self@ == Some(text@),
            written is None ==> self@ is None,
    {
        match &self.max_pack_size {
            Some(text) => Some(text.clone()),
            None => None,
        }
    }

    /// The largest a pack may grow before another is started.
    ///
    /// A size the file writes that this build does not read, or one that is nothing at all, is
    /// answered with [`DEFAULT_MAX_PACK_SIZE`], as is a file that says nothing.
    pub fn max_pack_size(&self) -> (limit: u64)
        ensures
            limit == pack_limit(self@),
    {
        match &self.max_pack_size {
            Some(text) => limit_from(parse_size(trim_text(text.as_str()))),
            None => DEFAULT_MAX_PACK_SIZE,
        }
    }
}

impl Default for StorageConfig {
    /// A configuration that says nothing.
    fn default() -> (config: StorageConfig)
        ensures
            config@ is None,
    {
        StorageConfig { max_pack_size: None }
    }
}

} // verus!

//! Which of a batch of objects the other end holds.
use vstd::prelude::*;

use crate::bytes::copied;

verus! {

/// The byte that says an object is held.
pub const HELD: u8 = 1;

/// The byte that says an object is not held.
pub const MISSING: u8 = 0;

/// Which of a batch of objects the other end holds.
///
/// A presence is one byte per key that was asked about, in the order it was asked, holding
/// [`HELD`] where the object is there and [`MISSING`] where it is not. It is exactly as long as
/// the batch it answers, so a position here and a key there always name the same object. A byte
/// that is neither reads as held, since it is not something a peer can mean.
#[derive(Debug, Clone, PartialEq, Eq)]
pub struct Presence {
    /// One byte per key.
    flags: Vec<u8>,
}

impl View for Presence {
    type V = Seq<u8>;

    closed spec fn view(&self) -> Seq<u8> {
        self.flags@
    }
}

/// Whether the byte `flag` says an object is held.
pub open spec fn is_held(flag: u8) -> bool {
    flag != MISSING
}

/// Whether the presence `flags` says the object at `index` is held: a position past the end of
/// the batch names no object that was asked about, so it is not.
pub open spec fn held_at(flags: Seq<u8>, index: int) -> bool {
    0 <= index < flags.len() && is_held(flags[index])
}

impl Presence {
    /// The byte that says an object is held.
    pub const HELD: u8 = 1;

    /// The byte that says an object is not held.
    pub const MISSING: u8 = 0;

    /// A presence from one byte per key.
    pub fn new(flags: Vec<u8>) -> (presence: Presence)
        ensures
            presence@ == flags@,
    {
        Presence { flags }
    }

    /// A presence that holds nothing, as long as the batch it is to answer.
    pub fn all_missing(len: usize) -> (presence: Presence)
        ensures
            presence@ == Seq::new(len as nat, |i: int| MISSING),
    {
        let mut flags: Vec<u8> = Vec::new();
        let mut i: usize = 0;
        while i < len
            invariant
                i <= len,
                flags@ == Seq::new(i as nat, |k: int| MISSING),
            decreases len - i,
        {
            flags.push(MISSING);
            i = i + 1;
            assert(flags@ =~= Seq::new(i as nat, |k: int| MISSING));
        }
        Presence { flags }
    }

    /// How many keys the presence answers for.
    pub fn len(&self) -> (len: usize)
        ensures
            len == self@.len(),
    {
        self.flags.len()
    }

    /// Whether the presence answers for no key at all.
    pub fn is_empty(&self) -> (empty: bool)
        ensures
            empty == (self@.len() == 0),
    {
        self.flags.len() == 0
    }

    /// Whether the object at `index` is held.
    pub fn held(&self, index: usize) -> (held: bool)
        ensures
            held == held_at(self@, index as int),
    {
        index < self.flags.len() && self.flags[index] != MISSING
    }

    /// Says whether the object at `index` is held.
    ///
    /// A presence is as long as the batch it answers, so marking a position outside it is a
    /// mistake in the caller.
    pub fn set_held(&mut self, index: usize, held: bool)
        requires
            index < old(self)@.len(),
        ensures
            final(self)@ == old(self)@.update(index as int, if held { HELD } else { MISSING }),
    {
        self.flags.set(index, if held { HELD } else { MISSING });
    }

    /// Whether each object is held, in the order it was asked about.
    pub fn iter(&self) -> (held: Vec<bool>)
        ensures
            held@ == self@.map_values(|flag: u8| is_held(flag)),
    {
        let mut held: Vec<bool> = Vec::new();
        let mut i: usize = 0;
        while i < self.flags.len()
            invariant
                i <= self.flags@.len(),
                held@ == self.flags@.take(i as int).map_values(|flag: u8| is_held(flag)),
            decreases self.flags@.len() - i,
        {
            held.push(self.flags[i] != MISSING);
            i = i + 1;
            assert(held@ =~= self.flags@.take(i as int).map_values(|flag: u8| is_held(flag)));
        }
        assert(self.flags@.take(i as int) =~= self.flags@);
        held
    }

    /// The bytes the presence is made of.
    pub fn as_bytes(&self) -> (bytes: &[u8])
        ensures
            bytes@ == self@,
    {
        self.flags.as_slice()
    }

    /// The bytes the presence is made of, handed over.
    pub fn into_bytes(self) -> (bytes: Vec<u8>)
        ensures
            bytes@ == self@,
    {
        self.flags
    }
}

impl Default for Presence {
    fn default() -> (presence: Presence)
        ensures
            presence@ == Seq::<u8>::empty(),
    {
        Presence { flags: Vec::new() }
    }
}

impl From<Vec<u8>> for Presence {
    fn from(flags: Vec<u8>) -> (presence: Presence)
        ensures
            presence@ == flags@,
    {
        Presence { flags }
    }
}

impl vstd::std_specs::convert::FromSpecImpl<Vec<u8>> for Presence {
    open spec fn obeys_from_spec() -> bool {
        true
    }

    closed spec fn from_spec(flags: Vec<u8>) -> Presence {
        Presence { flags }
    }
}

impl From<&[u8]> for Presence {
    fn from(flags: &[u8]) -> (presence: Presence)
        ensures
            presence@ == flags@,
    {
        Presence { flags: copied(flags) }
    }
}

impl vstd::std_specs::convert::FromSpecImpl<&[u8]> for Presence {
    open spec fn obeys_from_spec() -> bool {
        false
    }

    open spec fn from_spec(flags: &[u8]) -> Presence {
        arbitrary()
    }
}

impl From<Presence> for Vec<u8> {
    fn from(presence: Presence) -> (flags: Vec<u8>)
        ensures
            flags@ == presence@,
    {
        presence.flags
    }
}

impl vstd::std_specs::convert::FromSpecImpl<Presence> for Vec<u8> {
    open spec fn obeys_from_spec() -> bool {
        true
    }

    closed spec fn from_spec(presence: Presence) -> Vec<u8> {
        presence.flags
    }
}

} // verus!

//! What locking a place fails with.
//!
//! A place is locked while its lock file is there, and taking the lock is making that file, made
//! to fail unless it is new: a place that carries one already is refused rather than joined, since
//! a lock that two runs hold is not a lock. Making the file is the caller's I/O; what the outcome
//! means is here.
use vstd::prelude::*;

use crate::errors::{IoError, IoErrorKind};
use crate::text::push_text;

verus! {

/// What locking a place failed with.
#[derive(Debug)]
#[non_exhaustive]
pub enum LockError {
    /// The place carries a lock already: another run holds it, or one that died left it.
    Locked,
    /// The lock file could not be made.
    Io(IoError),
}

/// How a lock failure is written out.
pub open spec fn lock_error_text(error: LockError) -> Seq<char> {
    match error {
        LockError::Locked => "a lock on it is already there"@,
        LockError::Io(source) => "the lock file could not be made: "@ + source@.1,
    }
}

impl LockError {
    /// What making the lock file failed with means: a file that is there already is a place that is
    /// locked, and anything else is the failure itself.
    pub fn refusal(failure: IoError) -> (error: LockError)
        ensures
            failure@.0 == IoErrorKind::AlreadyExists ==> error is Locked,
            failure@.0 != IoErrorKind::AlreadyExists ==> error == LockError::Io(failure),
    {
        if failure.kind() == IoErrorKind::AlreadyExists {
            LockError::Locked
        } else {
            LockError::Io(failure)
        }
    }

    /// The failure written out as a sentence.
    pub fn to_string(&self) -> (text: String)
        ensures
            text@ == lock_error_text(*self),
    {
        let mut text = String::new();
        match self {
            LockError::Locked => push_text(&mut text, "a lock on it is already there"),
            LockError::Io(source) => {
                push_text(&mut text, "the lock file could not be made: ");
                push_text(&mut text, source.message().as_str());
            },
        }
        text
    }

    /// Whether the failure carries a cause of its own: only a failed lock file does.
    pub fn has_source(&self) -> (has: bool)
        ensures
            has == (*self is Io),
    {
        match self {
            LockError::Io(_) => true,
            LockError::Locked => false,
        }
    }
}

} // verus!

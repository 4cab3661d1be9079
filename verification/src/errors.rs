//! Failures in a shape that can be carried across a boundary and named again on the far side.
//!
//! A failure of `std`'s or of an encoder's is not this crate's type, so what crosses is what a
//! caller reads and branches on: the kind it was, and what it said.
use vstd::prelude::*;

use serde_json::Error as JsonFailure;

use crate::text::push_text;

verus! {

/// The standard library's kinds of I/O failure: a list of variants and nothing in them.
#[verifier::external_type_specification]
pub struct ExStdIoErrorKind(std::io::ErrorKind);

/// The standard library's I/O failure, carried as it came.
#[verifier::external_type_specification]
#[verifier::external_body]
pub struct ExStdIoError(std::io::Error);

/// What an I/O failure was, in `std`'s spelling.
///
/// One variant per `std::io::ErrorKind` that stable code can name, and named after it, so nothing
/// a caller could branch on has to be read out of a message. Whatever is left over (a kind `std`
/// adds later, or one it does not let stable code spell) arrives as [`Other`](Self::Other).
#[derive(Debug, Clone, Copy, PartialEq, Eq, Hash, Structural)]
pub enum IoErrorKind {
    /// An entity was not found, often a file.
    NotFound,
    /// The operation lacked the necessary privileges to complete.
    PermissionDenied,
    /// The connection was refused by the remote server.
    ConnectionRefused,
    /// The connection was reset by the remote server.
    ConnectionReset,
    /// The remote host is not reachable.
    HostUnreachable,
    /// The network is not reachable.
    NetworkUnreachable,
    /// The connection was aborted by the remote server.
    ConnectionAborted,
    /// The connection has not been established yet.
    NotConnected,
    /// The address is in use.
    AddrInUse,
    /// The address is not available.
    AddrNotAvailable,
    /// The network is down.
    NetworkDown,
    /// The pipe was closed, usually by writing to one whose read end is gone.
    BrokenPipe,
    /// An entity already exists, often a file.
    AlreadyExists,
    /// The operation would have to block, and was asked not to.
    WouldBlock,
    /// A filesystem object is, unexpectedly, not a directory.
    NotADirectory,
    /// A filesystem object is, unexpectedly, a directory.
    IsADirectory,
    /// A directory is not empty.
    DirectoryNotEmpty,
    /// The filesystem is read-only.
    ReadOnlyFilesystem,
    /// The network file handle the operation was given is stale.
    StaleNetworkFileHandle,
    /// A parameter was incorrect.
    InvalidInput,
    /// Data that was not valid for the operation was received.
    InvalidData,
    /// An operation timed out.
    TimedOut,
    /// A write returned zero when more was expected.
    WriteZero,
    /// The filesystem is full.
    StorageFull,
    /// The stream cannot be seeked.
    NotSeekable,
    /// A filesystem quota was exceeded.
    QuotaExceeded,
    /// The file is larger than the filesystem can hold.
    FileTooLarge,
    /// A resource is busy.
    ResourceBusy,
    /// An executable file is busy, usually because it is being written to.
    ExecutableFileBusy,
    /// An operation would deadlock.
    Deadlock,
    /// A move or copy between filesystems was attempted.
    CrossesDevices,
    /// A file has too many hard links.
    TooManyLinks,
    /// A filename is invalid.
    InvalidFilename,
    /// An argument list was longer than the limit allows.
    ArgumentListTooLong,
    /// The operation was interrupted before it completed, and may be retried.
    Interrupted,
    /// The operation is not supported.
    Unsupported,
    /// An end of file was reached when it was not expected.
    UnexpectedEof,
    /// An operation ran out of memory.
    OutOfMemory,
    /// A failure that falls under no other kind: what `std` does not classify, and whatever its
    /// non-exhaustive list grows next.
    Other,
}

impl Default for IoErrorKind {
    /// A kind that says nothing more is `Other`.
    fn default() -> (kind: IoErrorKind)
        ensures
            kind == IoErrorKind::Other,
    {
        IoErrorKind::Other
    }
}

/// The kind a `std` kind is carried as.
pub open spec fn kind_of_std(kind: std::io::ErrorKind) -> IoErrorKind {
    match kind {
        std::io::ErrorKind::NotFound => IoErrorKind::NotFound,
        std::io::ErrorKind::PermissionDenied => IoErrorKind::PermissionDenied,
        std::io::ErrorKind::ConnectionRefused => IoErrorKind::ConnectionRefused,
        std::io::ErrorKind::ConnectionReset => IoErrorKind::ConnectionReset,
        std::io::ErrorKind::HostUnreachable => IoErrorKind::HostUnreachable,
        std::io::ErrorKind::NetworkUnreachable => IoErrorKind::NetworkUnreachable,
        std::io::ErrorKind::ConnectionAborted => IoErrorKind::ConnectionAborted,
        std::io::ErrorKind::NotConnected => IoErrorKind::NotConnected,
        std::io::ErrorKind::AddrInUse => IoErrorKind::AddrInUse,
        std::io::ErrorKind::AddrNotAvailable => IoErrorKind::AddrNotAvailable,
        std::io::ErrorKind::NetworkDown => IoErrorKind::NetworkDown,
        std::io::ErrorKind::BrokenPipe => IoErrorKind::BrokenPipe,
        std::io::ErrorKind::AlreadyExists => IoErrorKind::AlreadyExists,
        std::io::ErrorKind::WouldBlock => IoErrorKind::WouldBlock,
        std::io::ErrorKind::NotADirectory => IoErrorKind::NotADirectory,
        std::io::ErrorKind::IsADirectory => IoErrorKind::IsADirectory,
        std::io::ErrorKind::DirectoryNotEmpty => IoErrorKind::DirectoryNotEmpty,
        std::io::ErrorKind::ReadOnlyFilesystem => IoErrorKind::ReadOnlyFilesystem,
        std::io::ErrorKind::StaleNetworkFileHandle => IoErrorKind::StaleNetworkFileHandle,
        std::io::ErrorKind::InvalidInput => IoErrorKind::InvalidInput,
        std::io::ErrorKind::InvalidData => IoErrorKind::InvalidData,
        std::io::ErrorKind::TimedOut => IoErrorKind::TimedOut,
        std::io::ErrorKind::WriteZero => IoErrorKind::WriteZero,
        std::io::ErrorKind::StorageFull => IoErrorKind::StorageFull,
        std::io::ErrorKind::NotSeekable => IoErrorKind::NotSeekable,
        std::io::ErrorKind::QuotaExceeded => IoErrorKind::QuotaExceeded,
        std::io::ErrorKind::FileTooLarge => IoErrorKind::FileTooLarge,
        std::io::ErrorKind::ResourceBusy => IoErrorKind::ResourceBusy,
        std::io::ErrorKind::ExecutableFileBusy => IoErrorKind::ExecutableFileBusy,
        std::io::ErrorKind::Deadlock => IoErrorKind::Deadlock,
        std::io::ErrorKind::CrossesDevices => IoErrorKind::CrossesDevices,
        std::io::ErrorKind::TooManyLinks => IoErrorKind::TooManyLinks,
        std::io::ErrorKind::InvalidFilename => IoErrorKind::InvalidFilename,
        std::io::ErrorKind::ArgumentListTooLong => IoErrorKind::ArgumentListTooLong,
        std::io::ErrorKind::Interrupted => IoErrorKind::Interrupted,
        std::io::ErrorKind::Unsupported => IoErrorKind::Unsupported,
        std::io::ErrorKind::UnexpectedEof => IoErrorKind::UnexpectedEof,
        std::io::ErrorKind::OutOfMemory => IoErrorKind::OutOfMemory,
        _ => IoErrorKind::Other,
    }
}

/// The `std` kind a carried kind stands for.
pub open spec fn std_of_kind(kind: IoErrorKind) -> std::io::ErrorKind {
    match kind {
        IoErrorKind::NotFound => std::io::ErrorKind::NotFound,
        IoErrorKind::PermissionDenied => std::io::ErrorKind::PermissionDenied,
        IoErrorKind::ConnectionRefused => std::io::ErrorKind::ConnectionRefused,
        IoErrorKind::ConnectionReset => std::io::ErrorKind::ConnectionReset,
        IoErrorKind::HostUnreachable => std::io::ErrorKind::HostUnreachable,
        IoErrorKind::NetworkUnreachable => std::io::ErrorKind::NetworkUnreachable,
        IoErrorKind::ConnectionAborted => std::io::ErrorKind::ConnectionAborted,
        IoErrorKind::NotConnected => std::io::ErrorKind::NotConnected,
        IoErrorKind::AddrInUse => std::io::ErrorKind::AddrInUse,
        IoErrorKind::AddrNotAvailable => std::io::ErrorKind::AddrNotAvailable,
        IoErrorKind::NetworkDown => std::io::ErrorKind::NetworkDown,
        IoErrorKind::BrokenPipe => std::io::ErrorKind::BrokenPipe,
        IoErrorKind::AlreadyExists => std::io::ErrorKind::AlreadyExists,
        IoErrorKind::WouldBlock => std::io::ErrorKind::WouldBlock,
        IoErrorKind::NotADirectory => std::io::ErrorKind::NotADirectory,
        IoErrorKind::IsADirectory => std::io::ErrorKind::IsADirectory,
        IoErrorKind::DirectoryNotEmpty => std::io::ErrorKind::DirectoryNotEmpty,
        IoErrorKind::ReadOnlyFilesystem => std::io::ErrorKind::ReadOnlyFilesystem,
        IoErrorKind::StaleNetworkFileHandle => std::io::ErrorKind::StaleNetworkFileHandle,
        IoErrorKind::InvalidInput => std::io::ErrorKind::InvalidInput,
        IoErrorKind::InvalidData => std::io::ErrorKind::InvalidData,
        IoErrorKind::TimedOut => std::io::ErrorKind::TimedOut,
        IoErrorKind::WriteZero => std::io::ErrorKind::WriteZero,
        IoErrorKind::StorageFull => std::io::ErrorKind::StorageFull,
        IoErrorKind::NotSeekable => std::io::ErrorKind::NotSeekable,
        IoErrorKind::QuotaExceeded => std::io::ErrorKind::QuotaExceeded,
        IoErrorKind::FileTooLarge => std::io::ErrorKind::FileTooLarge,
        IoErrorKind::ResourceBusy => std::io::ErrorKind::ResourceBusy,
        IoErrorKind::ExecutableFileBusy => std::io::ErrorKind::ExecutableFileBusy,
        IoErrorKind::Deadlock => std::io::ErrorKind::Deadlock,
        IoErrorKind::CrossesDevices => std::io::ErrorKind::CrossesDevices,
        IoErrorKind::TooManyLinks => std::io::ErrorKind::TooManyLinks,
        IoErrorKind::InvalidFilename => std::io::ErrorKind::InvalidFilename,
        IoErrorKind::ArgumentListTooLong => std::io::ErrorKind::ArgumentListTooLong,
        IoErrorKind::Interrupted => std::io::ErrorKind::Interrupted,
        IoErrorKind::Unsupported => std::io::ErrorKind::Unsupported,
        IoErrorKind::UnexpectedEof => std::io::ErrorKind::UnexpectedEof,
        IoErrorKind::OutOfMemory => std::io::ErrorKind::OutOfMemory,
        IoErrorKind::Other => std::io::ErrorKind::Other,
    }
}

impl From<std::io::ErrorKind> for IoErrorKind {
    fn from(kind: std::io::ErrorKind) -> (carried: IoErrorKind)
        ensures
            carried == kind_of_std(kind),
    {
        match kind {
            std::io::ErrorKind::NotFound => IoErrorKind::NotFound,
            std::io::ErrorKind::PermissionDenied => IoErrorKind::PermissionDenied,
            std::io::ErrorKind::ConnectionRefused => IoErrorKind::ConnectionRefused,
            std::io::ErrorKind::ConnectionReset => IoErrorKind::ConnectionReset,
            std::io::ErrorKind::HostUnreachable => IoErrorKind::HostUnreachable,
            std::io::ErrorKind::NetworkUnreachable => IoErrorKind::NetworkUnreachable,
            std::io::ErrorKind::ConnectionAborted => IoErrorKind::ConnectionAborted,
            std::io::ErrorKind::NotConnected => IoErrorKind::NotConnected,
            std::io::ErrorKind::AddrInUse => IoErrorKind::AddrInUse,
            std::io::ErrorKind::AddrNotAvailable => IoErrorKind::AddrNotAvailable,
            std::io::ErrorKind::NetworkDown => IoErrorKind::NetworkDown,
            std::io::ErrorKind::BrokenPipe => IoErrorKind::BrokenPipe,
            std::io::ErrorKind::AlreadyExists => IoErrorKind::AlreadyExists,
            std::io::ErrorKind::WouldBlock => IoErrorKind::WouldBlock,
            std::io::ErrorKind::NotADirectory => IoErrorKind::NotADirectory,
            std::io::ErrorKind::IsADirectory => IoErrorKind::IsADirectory,
            std::io::ErrorKind::DirectoryNotEmpty => IoErrorKind::DirectoryNotEmpty,
            std::io::ErrorKind::ReadOnlyFilesystem => IoErrorKind::ReadOnlyFilesystem,
            std::io::ErrorKind::StaleNetworkFileHandle => IoErrorKind::StaleNetworkFileHandle,
            std::io::ErrorKind::InvalidInput => IoErrorKind::InvalidInput,
            std::io::ErrorKind::InvalidData => IoErrorKind::InvalidData,
            std::io::ErrorKind::TimedOut => IoErrorKind::TimedOut,
            std::io::ErrorKind::WriteZero => IoErrorKind::WriteZero,
            std::io::ErrorKind::StorageFull => IoErrorKind::StorageFull,
            std::io::ErrorKind::NotSeekable => IoErrorKind::NotSeekable,
            std::io::ErrorKind::QuotaExceeded => IoErrorKind::QuotaExceeded,
            std::io::ErrorKind::FileTooLarge => IoErrorKind::FileTooLarge,
            std::io::ErrorKind::ResourceBusy => IoErrorKind::ResourceBusy,
            std::io::ErrorKind::ExecutableFileBusy => IoErrorKind::ExecutableFileBusy,
            std::io::ErrorKind::Deadlock => IoErrorKind::Deadlock,
            std::io::ErrorKind::CrossesDevices => IoErrorKind::CrossesDevices,
            std::io::ErrorKind::TooManyLinks => IoErrorKind::TooManyLinks,
            std::io::ErrorKind::InvalidFilename => IoErrorKind::InvalidFilename,
            std::io::ErrorKind::ArgumentListTooLong => IoErrorKind::ArgumentListTooLong,
            std::io::ErrorKind::Interrupted => IoErrorKind::Interrupted,
            std::io::ErrorKind::Unsupported => IoErrorKind::Unsupported,
            std::io::ErrorKind::UnexpectedEof => IoErrorKind::UnexpectedEof,
            std::io::ErrorKind::OutOfMemory => IoErrorKind::OutOfMemory,
            _ => IoErrorKind::Other,
        }
    }
}

impl vstd::std_specs::convert::FromSpecImpl<std::io::ErrorKind> for IoErrorKind {
    open spec fn obeys_from_spec() -> bool {
        true
    }

    open spec fn from_spec(kind: std::io::ErrorKind) -> IoErrorKind {
        kind_of_std(kind)
    }
}

impl From<IoErrorKind> for std::io::ErrorKind {
    fn from(kind: IoErrorKind) -> (named: std::io::ErrorKind)
        ensures
            named == std_of_kind(kind),
    {
        match kind {
            IoErrorKind::NotFound => std::io::ErrorKind::NotFound,
            IoErrorKind::PermissionDenied => std::io::ErrorKind::PermissionDenied,
            IoErrorKind::ConnectionRefused => std::io::ErrorKind::ConnectionRefused,
            IoErrorKind::ConnectionReset => std::io::ErrorKind::ConnectionReset,
            IoErrorKind::HostUnreachable => std::io::ErrorKind::HostUnreachable,
            IoErrorKind::NetworkUnreachable => std::io::ErrorKind::NetworkUnreachable,
            IoErrorKind::ConnectionAborted => std::io::ErrorKind::ConnectionAborted,
            IoErrorKind::NotConnected => std::io::ErrorKind::NotConnected,
            IoErrorKind::AddrInUse => std::io::ErrorKind::AddrInUse,
            IoErrorKind::AddrNotAvailable => std::io::ErrorKind::AddrNotAvailable,
            IoErrorKind::NetworkDown => std::io::ErrorKind::NetworkDown,
            IoErrorKind::BrokenPipe => std::io::ErrorKind::BrokenPipe,
            IoErrorKind::AlreadyExists => std::io::ErrorKind::AlreadyExists,
            IoErrorKind::WouldBlock => std::io::ErrorKind::WouldBlock,
            IoErrorKind::NotADirectory => std::io::ErrorKind::NotADirectory,
            IoErrorKind::IsADirectory => std::io::ErrorKind::IsADirectory,
            IoErrorKind::DirectoryNotEmpty => std::io::ErrorKind::DirectoryNotEmpty,
            IoErrorKind::ReadOnlyFilesystem => std::io::ErrorKind::ReadOnlyFilesystem,
            IoErrorKind::StaleNetworkFileHandle => std::io::ErrorKind::StaleNetworkFileHandle,
            IoErrorKind::InvalidInput => std::io::ErrorKind::InvalidInput,
            IoErrorKind::InvalidData => std::io::ErrorKind::InvalidData,
            IoErrorKind::TimedOut => std::io::ErrorKind::TimedOut,
            IoErrorKind::WriteZero => std::io::ErrorKind::WriteZero,
            IoErrorKind::StorageFull => std::io::ErrorKind::StorageFull,
            IoErrorKind::NotSeekable => std::io::ErrorKind::NotSeekable,
            IoErrorKind::QuotaExceeded => std::io::ErrorKind::QuotaExceeded,
            IoErrorKind::FileTooLarge => std::io::ErrorKind::FileTooLarge,
            IoErrorKind::ResourceBusy => std::io::ErrorKind::ResourceBusy,
            IoErrorKind::ExecutableFileBusy => std::io::ErrorKind::ExecutableFileBusy,
            IoErrorKind::Deadlock => std::io::ErrorKind::Deadlock,
            IoErrorKind::CrossesDevices => std::io::ErrorKind::CrossesDevices,
            IoErrorKind::TooManyLinks => std::io::ErrorKind::TooManyLinks,
            IoErrorKind::InvalidFilename => std::io::ErrorKind::InvalidFilename,
            IoErrorKind::ArgumentListTooLong => std::io::ErrorKind::ArgumentListTooLong,
            IoErrorKind::Interrupted => std::io::ErrorKind::Interrupted,
            IoErrorKind::Unsupported => std::io::ErrorKind::Unsupported,
            IoErrorKind::UnexpectedEof => std::io::ErrorKind::UnexpectedEof,
            IoErrorKind::OutOfMemory => std::io::ErrorKind::OutOfMemory,
            IoErrorKind::Other => std::io::ErrorKind::Other,
        }
    }
}

impl vstd::std_specs::convert::FromSpecImpl<IoErrorKind> for std::io::ErrorKind {
    open spec fn obeys_from_spec() -> bool {
        true
    }

    open spec fn from_spec(kind: IoErrorKind) -> std::io::ErrorKind {
        std_of_kind(kind)
    }
}

/// Every kind this crate names survives a round trip through `std`: carried there and back, it
/// is the kind it was.
pub proof fn lemma_kind_round_trip(kind: IoErrorKind)
    ensures
        kind_of_std(std_of_kind(kind)) == kind,
{
}

/// A `std` kind that has a variant of its own here comes back from a round trip as itself, and
/// every other `std` kind is carried as `Other`.
pub proof fn lemma_std_kind_round_trip(kind: std::io::ErrorKind)
    ensures
        kind_of_std(kind) != IoErrorKind::Other ==> std_of_kind(kind_of_std(kind)) == kind,
        kind_of_std(kind) == IoErrorKind::Other ==> std_of_kind(kind_of_std(kind))
            == std::io::ErrorKind::Other,
{
}

/// The kind an I/O failure was.
///
/// `std::io::Error::kind` has no contract in vstd, and an I/O failure is opaque here, so nothing
/// is claimed of which kind comes back.
#[verifier::external_body]
fn kind_of_failure(failure: &std::io::Error) -> std::io::ErrorKind {
    failure.kind()
}

/// What an I/O failure says when it is written out.
///
/// `ToString::to_string` on an opaque I/O failure: nothing is claimed of the text.
#[verifier::external_body]
fn message_of_failure(failure: &std::io::Error) -> String {
    failure.to_string()
}

/// An I/O failure of `kind` that says `message`.
///
/// `std::io::Error::new`: the failure is opaque here, so nothing is claimed of it.
#[verifier::external_body]
fn failure_of(kind: std::io::ErrorKind, message: String) -> std::io::Error {
    std::io::Error::new(kind, message)
}

/// An I/O failure, as it crosses a boundary: the kind it was, and what it said.
///
/// Converting back gives an I/O failure of that kind carrying that message.
#[derive(Debug, Clone, PartialEq, Eq)]
pub struct IoError {
    /// The kind of failure this was.
    kind: IoErrorKind,
    /// What the failure said.
    message: String,
}

impl View for IoError {
    type V = (IoErrorKind, Seq<char>);

    closed spec fn view(&self) -> (IoErrorKind, Seq<char>) {
        (self.kind, self.message@)
    }
}

impl IoError {
    /// Names a failure by its kind and what it said.
    pub fn new(kind: IoErrorKind, message: String) -> (error: IoError)
        ensures
            error@ == (kind, message@),
    {
        IoError { kind, message }
    }

    /// Names a failure by the `std` kind it was and what it said.
    pub fn from_parts(kind: std::io::ErrorKind, message: String) -> (error: IoError)
        ensures
            error@ == (kind_of_std(kind), message@),
    {
        IoError::new(IoErrorKind::from(kind), message)
    }

    /// The kind of failure this was.
    pub fn kind(&self) -> (kind: IoErrorKind)
        ensures
            kind == self@.0,
    {
        self.kind
    }

    /// What the failure said.
    pub fn message(&self) -> (message: String)
        ensures
            message@ == self@.1,
    {
        self.message.clone()
    }

    /// The failure written out: what it said.
    pub fn to_string(&self) -> (text: String)
        ensures
            text@ == self@.1,
    {
        self.message.clone()
    }

    /// The failure as `std` spells it: an I/O failure of the kind this stands for, carrying the
    /// message.
    pub fn into_std(self) -> std::io::Error {
        failure_of(std::io::ErrorKind::from(self.kind), self.message)
    }
}

impl Default for IoError {
    fn default() -> (error: IoError)
        ensures
            error@ == (IoErrorKind::Other, Seq::<char>::empty()),
    {
        IoError::new(IoErrorKind::Other, String::new())
    }
}

impl From<std::io::Error> for IoError {
    /// The kind the failure was and what it said, read from it and carried by
    /// [`from_parts`](IoError::from_parts).
    fn from(source: std::io::Error) -> IoError {
        let kind = kind_of_failure(&source);
        IoError::from_parts(kind, message_of_failure(&source))
    }
}

impl vstd::std_specs::convert::FromSpecImpl<std::io::Error> for IoError {
    /// What comes out is read from an opaque I/O failure, so no value is promised here.
    open spec fn obeys_from_spec() -> bool {
        false
    }

    open spec fn from_spec(source: std::io::Error) -> IoError {
        arbitrary()
    }
}

impl From<IoError> for std::io::Error {
    fn from(source: IoError) -> std::io::Error {
        source.into_std()
    }
}

impl vstd::std_specs::convert::FromSpecImpl<IoError> for std::io::Error {
    /// What comes out is an opaque I/O failure, so no value is promised here.
    open spec fn obeys_from_spec() -> bool {
        false
    }

    open spec fn from_spec(source: IoError) -> std::io::Error {
        arbitrary()
    }
}

/// A `bincode2` failure, which is a boxed kind.
#[verifier::external_type_specification]
#[verifier::external_body]
pub struct ExBincodeErrorKind(bincode2::ErrorKind);

/// What a `bincode2` failure says when it is written out.
///
/// `ToString::to_string` on the failure: it is opaque here, so nothing is claimed of the text.
#[verifier::external_body]
fn message_of_bincode(failure: &bincode2::Error) -> String {
    failure.to_string()
}

/// A `bincode2` failure of the `Custom` kind, carrying `message`.
///
/// `Box::new(bincode2::ErrorKind::Custom(message))`: the failure is opaque here, so nothing is
/// claimed of it.
#[verifier::external_body]
fn custom_bincode(message: String) -> bincode2::Error {
    Box::new(bincode2::ErrorKind::Custom(message))
}

/// A failure to encode or decode a value, as it crosses a boundary: what it said.
#[derive(Debug, Default, Clone, PartialEq, Eq)]
pub struct BincodeError {
    /// What the failure said.
    message: String,
}

impl View for BincodeError {
    type V = Seq<char>;

    closed spec fn view(&self) -> Seq<char> {
        self.message@
    }
}

impl BincodeError {
    /// Names a failure by what it said.
    pub fn new(message: String) -> (error: BincodeError)
        ensures
            error@ == message@,
    {
        BincodeError { message }
    }

    /// What the failure said.
    pub fn message(&self) -> (message: String)
        ensures
            message@ == self@,
    {
        self.message.clone()
    }

    /// The failure written out: what it said.
    pub fn to_string(&self) -> (text: String)
        ensures
            text@ == self@,
    {
        self.message.clone()
    }

    /// The failure as `bincode2` spells it: a `Custom` kind carrying the message.
    pub fn into_bincode(self) -> bincode2::Error {
        custom_bincode(self.message)
    }
}

impl From<bincode2::Error> for BincodeError {
    fn from(source: bincode2::Error) -> BincodeError {
        BincodeError::new(message_of_bincode(&source))
    }
}

impl vstd::std_specs::convert::FromSpecImpl<bincode2::Error> for BincodeError {
    /// What comes out is read from an opaque failure, so no value is promised here.
    open spec fn obeys_from_spec() -> bool {
        false
    }

    open spec fn from_spec(source: bincode2::Error) -> BincodeError {
        arbitrary()
    }
}

/// A `serde_json` failure, carried as it came.
#[verifier::external_type_specification]
#[verifier::external_body]
pub struct ExJsonError(JsonFailure);

/// What a `serde_json` failure says when it is written out.
///
/// `ToString::to_string` on the failure: it is opaque here, so nothing is claimed of the text.
#[verifier::external_body]
fn message_of_json(failure: &JsonFailure) -> String {
    failure.to_string()
}

/// The line a `serde_json` failure was found on, by `serde_json::Error::line`: nothing is
/// claimed of it.
#[verifier::external_body]
fn line_of_json(failure: &JsonFailure) -> usize {
    failure.line()
}

/// The column a `serde_json` failure was found on, by `serde_json::Error::column`: nothing is
/// claimed of it.
#[verifier::external_body]
fn column_of_json(failure: &JsonFailure) -> usize {
    failure.column()
}

/// A `serde_json` failure carrying `message`, by `serde_json::Error::io` over
/// `std::io::Error::other`: the failure is opaque here, so nothing is claimed of it.
#[verifier::external_body]
fn json_of_message(message: String) -> JsonFailure {
    JsonFailure::io(std::io::Error::other(message))
}

/// A failure to turn a value into JSON, as it crosses a boundary: what it said and where.
#[derive(Debug, Default, Clone, PartialEq, Eq)]
pub struct JsonError {
    /// What the failure said.
    message: String,
    /// The line it was found on.
    line: usize,
    /// The column it was found on.
    column: usize,
}

impl View for JsonError {
    type V = (Seq<char>, usize, usize);

    closed spec fn view(&self) -> (Seq<char>, usize, usize) {
        (self.message@, self.line, self.column)
    }
}

impl JsonError {
    /// Names a failure by what it said and where it said it.
    pub fn new(message: String, line: usize, column: usize) -> (error: JsonError)
        ensures
            error@ == (message@, line, column),
    {
        JsonError { message, line, column }
    }

    /// What the failure said.
    pub fn message(&self) -> (message: String)
        ensures
            message@ == self@.0,
    {
        self.message.clone()
    }

    /// The line it was found on.
    pub fn line(&self) -> (line: usize)
        ensures
            line == self@.1,
    {
        self.line
    }

    /// The column it was found on.
    pub fn column(&self) -> (column: usize)
        ensures
            column == self@.2,
    {
        self.column
    }

    /// The failure written out: what it said.
    pub fn to_string(&self) -> (text: String)
        ensures
            text@ == self@.0,
    {
        self.message.clone()
    }

    /// The failure as `serde_json` spells it, as far as one can be built: an I/O failure
    /// carrying the message, since `serde_json` hands out no way to build the syntax failure this
    /// describes.
    pub fn into_json(self) -> JsonFailure {
        json_of_message(self.message)
    }
}

impl From<JsonFailure> for JsonError {
    /// What the failure said, and the line and column it was found on.
    fn from(source: JsonFailure) -> JsonError {
        JsonError::new(message_of_json(&source), line_of_json(&source), column_of_json(&source))
    }
}

impl vstd::std_specs::convert::FromSpecImpl<JsonFailure> for JsonError {
    /// What comes out is read from an opaque failure, so no value is promised here.
    open spec fn obeys_from_spec() -> bool {
        false
    }

    open spec fn from_spec(source: JsonFailure) -> JsonError {
        arbitrary()
    }
}

/// A target that would not read as an address: the target itself, which is the one thing that
/// says which address to go and look at.
#[derive(Debug, Default, Clone, PartialEq, Eq)]
pub struct AddrError {
    /// The target that would not read as an address.
    target: String,
}

impl View for AddrError {
    type V = Seq<char>;

    closed spec fn view(&self) -> Seq<char> {
        self.target@
    }
}

/// How a target that would not read as an address is written out.
pub open spec fn addr_error_text(target: Seq<char>) -> Seq<char> {
    seq!['`'] + target + "` is not an address"@
}

impl AddrError {
    /// Names the target that would not read as an address.
    pub fn new(target: String) -> (error: AddrError)
        ensures
            error@ == target@,
    {
        AddrError { target }
    }

    /// The target that would not read as an address.
    pub fn target(&self) -> (target: String)
        ensures
            target@ == self@,
    {
        self.target.clone()
    }

    /// The failure written out: the target, and that it is not an address.
    pub fn to_string(&self) -> (text: String)
        ensures
            text@ == addr_error_text(self@),
    {
        let mut text = String::new();
        push_text(&mut text, "`");
        push_text(&mut text, self.target.as_str());
        push_text(&mut text, "` is not an address");
        proof {
            reveal_strlit("`");
            assert(text@ =~= addr_error_text(self@));
        }
        text
    }
}

/// What a failure is called and why it happened.
///
/// A failure that a program may read reports both: the name it is known by, which is stable and
/// untranslated, and the reason, which is written in the run's language where the failure knows
/// one.
pub trait Failure {
    /// The name this failure is known by: lowercase, with words joined by `_`, never translated.
    fn name(&self) -> &'static str;

    /// Why it happened, in the run's language; it may be empty.
    fn reason(&self) -> String;

    /// This failure as it is handed over: what `name` and `reason` say, put together by
    /// [`Report::new`].
    fn report(&self) -> (report: Report)
        ensures
            exists|name: &'static str, reason: String|
                call_ensures(Self::name, (self,), name) && call_ensures(Self::reason, (self,), reason)
                    && report@ == (name@, reason@),
    {
        let name = self.name();
        let reason = self.reason();
        Report::new(name, reason)
    }
}

/// One failure, written down the way a program reads it: its name and its reason.
#[derive(Debug, Clone, PartialEq, Eq)]
pub struct Report {
    /// The name the failure is known by.
    name: &'static str,
    /// Why it happened, in the run's language.
    reason: String,
}

impl View for Report {
    type V = (Seq<char>, Seq<char>);

    closed spec fn view(&self) -> (Seq<char>, Seq<char>) {
        (self.name@, self.reason@)
    }
}

impl Report {
    /// A report of a failure known as `name` that happened for `reason`.
    pub fn new(name: &'static str, reason: String) -> (report: Report)
        ensures
            report@ == (name@, reason@),
    {
        Report { name, reason }
    }

    /// The name the failure is known by.
    pub fn name(&self) -> (name: &'static str)
        ensures
            name@ == self@.0,
    {
        self.name
    }

    /// Why it happened.
    pub fn reason(&self) -> (reason: String)
        ensures
            reason@ == self@.1,
    {
        self.reason.clone()
    }
}

} // verus!

use std::io::{Error as IoFailure, ErrorKind as StdKind};

use rorolala::errors::{AddrError, BincodeError, Failure, IoError, IoErrorKind, JsonError, Report};

/// Every kind this crate names, paired with the `std` kind it stands for; `Other` is where
/// anything not listed lands.
const NAMED_KINDS: [(IoErrorKind, StdKind); 38] = [
        (IoErrorKind::NotFound, StdKind::NotFound),
        (IoErrorKind::PermissionDenied, StdKind::PermissionDenied),
        (IoErrorKind::ConnectionRefused, StdKind::ConnectionRefused),
        (IoErrorKind::ConnectionReset, StdKind::ConnectionReset),
        (IoErrorKind::HostUnreachable, StdKind::HostUnreachable),
        (IoErrorKind::NetworkUnreachable, StdKind::NetworkUnreachable),
        (IoErrorKind::ConnectionAborted, StdKind::ConnectionAborted),
        (IoErrorKind::NotConnected, StdKind::NotConnected),
        (IoErrorKind::AddrInUse, StdKind::AddrInUse),
        (IoErrorKind::AddrNotAvailable, StdKind::AddrNotAvailable),
        (IoErrorKind::NetworkDown, StdKind::NetworkDown),
        (IoErrorKind::BrokenPipe, StdKind::BrokenPipe),
        (IoErrorKind::AlreadyExists, StdKind::AlreadyExists),
        (IoErrorKind::WouldBlock, StdKind::WouldBlock),
        (IoErrorKind::NotADirectory, StdKind::NotADirectory),
        (IoErrorKind::IsADirectory, StdKind::IsADirectory),
        (IoErrorKind::DirectoryNotEmpty, StdKind::DirectoryNotEmpty),
        (IoErrorKind::ReadOnlyFilesystem, StdKind::ReadOnlyFilesystem),
        (
            IoErrorKind::StaleNetworkFileHandle,
            StdKind::StaleNetworkFileHandle,
        ),
        (IoErrorKind::InvalidInput, StdKind::InvalidInput),
        (IoErrorKind::InvalidData, StdKind::InvalidData),
        (IoErrorKind::TimedOut, StdKind::TimedOut),
        (IoErrorKind::WriteZero, StdKind::WriteZero),
        (IoErrorKind::StorageFull, StdKind::StorageFull),
        (IoErrorKind::NotSeekable, StdKind::NotSeekable),
        (IoErrorKind::QuotaExceeded, StdKind::QuotaExceeded),
        (IoErrorKind::FileTooLarge, StdKind::FileTooLarge),
        (IoErrorKind::ResourceBusy, StdKind::ResourceBusy),
        (IoErrorKind::ExecutableFileBusy, StdKind::ExecutableFileBusy),
        (IoErrorKind::Deadlock, StdKind::Deadlock),
        (IoErrorKind::CrossesDevices, StdKind::CrossesDevices),
        (IoErrorKind::TooManyLinks, StdKind::TooManyLinks),
        (IoErrorKind::InvalidFilename, StdKind::InvalidFilename),
        (
            IoErrorKind::ArgumentListTooLong,
            StdKind::ArgumentListTooLong,
        ),
        (IoErrorKind::Interrupted, StdKind::Interrupted),
        (IoErrorKind::Unsupported, StdKind::Unsupported),
        (IoErrorKind::UnexpectedEof, StdKind::UnexpectedEof),
        (IoErrorKind::OutOfMemory, StdKind::OutOfMemory),
    ];

#[test]
fn every_named_kind_survives_a_round_trip_through_std() {
    for (kind, std_kind) in NAMED_KINDS {
        assert_eq!(IoErrorKind::from(std_kind), kind, "{std_kind:?}");
        assert_eq!(StdKind::from(kind), std_kind, "{kind:?}");
    }
}

#[test]
fn a_std_kind_with_no_arm_of_its_own_falls_back_to_other() {
    assert_eq!(IoErrorKind::from(StdKind::Other), IoErrorKind::Other);
}

#[test]
fn an_io_failure_keeps_its_kind_and_its_message() {
    let source = IoFailure::new(StdKind::PermissionDenied, "denied here");
    let carried = IoError::from(source);

    assert_eq!(carried.kind(), IoErrorKind::PermissionDenied);
    assert_eq!(carried.message(), "denied here");

    let back = IoFailure::from(carried);
    assert_eq!(back.kind(), StdKind::PermissionDenied);
    assert_eq!(back.to_string(), "denied here");
}

#[test]
fn naming_an_io_failure_keeps_its_kind_and_its_message() {
    let carried = IoError::new(IoErrorKind::TimedOut, "too slow".to_owned());

    assert_eq!(carried.kind(), IoErrorKind::TimedOut);
    assert_eq!(carried.message(), "too slow");
    assert_eq!(carried.to_string(), "too slow");
}

#[test]
fn an_io_failure_named_by_its_std_kind_keeps_both() {
    let carried = IoError::from_parts(StdKind::NotFound, "gone".to_owned());

    assert_eq!(carried.kind(), IoErrorKind::NotFound);
    assert_eq!(carried.into_std().kind(), StdKind::NotFound);
}

#[test]
fn a_bincode_failure_keeps_its_message() {
    let source = Box::new(bincode2::ErrorKind::Custom("bad tag".to_owned()));
    let carried = BincodeError::from(source);

    assert_eq!(carried.message(), "bad tag");
    assert_eq!(carried.into_bincode().to_string(), "bad tag");
}

#[test]
fn naming_a_bincode_failure_keeps_its_message() {
    let carried = BincodeError::new("bad tag".to_owned());

    assert_eq!(carried.message(), "bad tag");
    assert_eq!(carried.to_string(), "bad tag");
    assert_eq!(carried.into_bincode().to_string(), "bad tag");
}

#[test]
fn naming_a_json_failure_keeps_what_it_said_and_where() {
    let carried = JsonError::new("expected a value".to_owned(), 3, 7);

    assert_eq!(carried.message(), "expected a value");
    assert_eq!(carried.line(), 3);
    assert_eq!(carried.column(), 7);
    assert_eq!(carried.to_string(), "expected a value");
    assert_eq!(carried.into_json().to_string(), "expected a value");
}

#[test]
fn a_json_failure_keeps_what_it_said_and_where() {
    let source = serde_json::from_str::<u32>("").unwrap_err();
    let (line, column) = (source.line(), source.column());
    let carried = JsonError::from(source);

    assert!(!carried.message().is_empty());
    // The two are distinct on this input, so a swap between them could not pass.
    assert_ne!(line, column);
    assert_eq!(carried.line(), line);
    assert_eq!(carried.column(), column);
    assert_eq!(carried.clone().into_json().to_string(), carried.message());
}

#[test]
fn an_address_that_will_not_read_says_which() {
    let carried = AddrError::new("nowhere".to_owned());

    assert_eq!(carried.target(), "nowhere");
    assert!(carried.to_string().contains("nowhere"));
}

#[test]
fn an_address_failure_is_written_with_its_target_in_backticks() {
    assert_eq!(
        AddrError::new("nowhere".to_owned()).to_string(),
        "`nowhere` is not an address"
    );
}

/// A failure of this test's own, so that the shape is read without a program around it.
struct ErrorMissing {
    what: &'static str,
}

impl Failure for ErrorMissing {
    fn name(&self) -> &'static str {
        "error_missing"
    }

    fn reason(&self) -> String {
        format!("{} is not there", self.what)
    }
}

#[test]
fn a_failure_reports_its_name_and_its_reason() {
    let reported = ErrorMissing { what: "a vault" }.report();

    assert_eq!(
        reported,
        Report::new("error_missing", "a vault is not there".to_owned())
    );
    assert_eq!(reported.name(), "error_missing");
    assert_eq!(reported.reason(), "a vault is not there");
}

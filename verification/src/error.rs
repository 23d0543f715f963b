//! The crate's error type, its mathematical view, and the text it shows.
use crate::text::{decimal, decimal_string, join2, join3, join4};
use vstd::prelude::*;

verus! {

/// Everything that an operation of the engine can report.
#[derive(Debug)]
#[allow(inconsistent_fields)]
pub enum SalamanderError {
    InvalidArgument(String),
    Io(String),
    Corrupt { offset: u64, reason: String },
    OffsetBeyondHead(u64),
    Manifest(String),
    UnsupportedFormat { found: u32, supported: u32 },
    UnsupportedStorageFormat { found: u32, supported: u32 },
    InvalidSegmentName(String),
    NamespaceExists(String),
    Locked(String),
    Serialization(String),
    InvalidFormat(String),
    Codec(String),
    ResourceLimit { resource: &'static str, actual: u64, maximum: u64 },
    Migration(String),
    MigrationIncomplete(String),
    RevisionConflict { expected: String, actual: String },
    EventIdConflict,
    IdempotencyConflict,
    BatchIdConflict,
    BranchNotFound(String),
    BranchExists(String),
    BranchArchived(String),
    InvalidBranchAncestry(String),
    NotBatchBoundary(u64),
    PositionUnavailable { requested: u64, floor: u64, head: u64, bootstrap_available: bool },
}

/// What an error says, with texts taken by their characters.
#[verifier::ext_equal]
#[allow(inconsistent_fields)]
pub enum ErrorView {
    InvalidArgument(Seq<char>),
    Io(Seq<char>),
    Corrupt { offset: u64, reason: Seq<char> },
    OffsetBeyondHead(u64),
    Manifest(Seq<char>),
    UnsupportedFormat { found: u32, supported: u32 },
    UnsupportedStorageFormat { found: u32, supported: u32 },
    InvalidSegmentName(Seq<char>),
    NamespaceExists(Seq<char>),
    Locked(Seq<char>),
    Serialization(Seq<char>),
    InvalidFormat(Seq<char>),
    Codec(Seq<char>),
    ResourceLimit { resource: Seq<char>, actual: u64, maximum: u64 },
    Migration(Seq<char>),
    MigrationIncomplete(Seq<char>),
    RevisionConflict { expected: Seq<char>, actual: Seq<char> },
    EventIdConflict,
    IdempotencyConflict,
    BatchIdConflict,
    BranchNotFound(Seq<char>),
    BranchExists(Seq<char>),
    BranchArchived(Seq<char>),
    InvalidBranchAncestry(Seq<char>),
    NotBatchBoundary(u64),
    PositionUnavailable { requested: u64, floor: u64, head: u64, bootstrap_available: bool },
}

pub type Result<T> = core::result::Result<T, SalamanderError>;

impl View for SalamanderError {
    type V = ErrorView;

    open spec fn view(&self) -> ErrorView {
        match *self {
            SalamanderError::InvalidArgument(s) => ErrorView::InvalidArgument(s@),
            SalamanderError::Io(s) => ErrorView::Io(s@),
            SalamanderError::Corrupt { offset, reason } => ErrorView::Corrupt { offset, reason: reason@ },
            SalamanderError::OffsetBeyondHead(n) => ErrorView::OffsetBeyondHead(n),
            SalamanderError::Manifest(s) => ErrorView::Manifest(s@),
            SalamanderError::UnsupportedFormat { found, supported } => ErrorView::UnsupportedFormat { found, supported },
            SalamanderError::UnsupportedStorageFormat { found, supported } => ErrorView::UnsupportedStorageFormat { found, supported },
            SalamanderError::InvalidSegmentName(s) => ErrorView::InvalidSegmentName(s@),
            SalamanderError::NamespaceExists(s) => ErrorView::NamespaceExists(s@),
            SalamanderError::Locked(s) => ErrorView::Locked(s@),
            SalamanderError::Serialization(s) => ErrorView::Serialization(s@),
            SalamanderError::InvalidFormat(s) => ErrorView::InvalidFormat(s@),
            SalamanderError::Codec(s) => ErrorView::Codec(s@),
            SalamanderError::ResourceLimit { resource, actual, maximum } => ErrorView::ResourceLimit { resource: resource@, actual, maximum },
            SalamanderError::Migration(s) => ErrorView::Migration(s@),
            SalamanderError::MigrationIncomplete(s) => ErrorView::MigrationIncomplete(s@),
            SalamanderError::RevisionConflict { expected, actual } => ErrorView::RevisionConflict { expected: expected@, actual: actual@ },
            SalamanderError::EventIdConflict => ErrorView::EventIdConflict,
            SalamanderError::IdempotencyConflict => ErrorView::IdempotencyConflict,
            SalamanderError::BatchIdConflict => ErrorView::BatchIdConflict,
            SalamanderError::BranchNotFound(s) => ErrorView::BranchNotFound(s@),
            SalamanderError::BranchExists(s) => ErrorView::BranchExists(s@),
            SalamanderError::BranchArchived(s) => ErrorView::BranchArchived(s@),
            SalamanderError::InvalidBranchAncestry(s) => ErrorView::InvalidBranchAncestry(s@),
            SalamanderError::NotBatchBoundary(n) => ErrorView::NotBatchBoundary(n),
            SalamanderError::PositionUnavailable { requested, floor, head, bootstrap_available } => ErrorView::PositionUnavailable {
                requested,
                floor,
                head,
                bootstrap_available,
            },
        }
    }
}

/// The text that an error is shown as.
pub open spec fn message_of(e: ErrorView) -> Seq<char> {
    match e {
        ErrorView::InvalidArgument(s) => "invalid argument: "@ + s,
        ErrorView::Io(s) => "io: "@ + s,
        ErrorView::Corrupt { offset, reason } => "corrupt record at offset "@ + decimal(offset as nat) + ": "@ + reason,
        ErrorView::OffsetBeyondHead(n) => "offset "@ + decimal(n as nat) + " beyond head"@,
        ErrorView::Manifest(s) => "manifest error: "@ + s,
        ErrorView::UnsupportedFormat { found, supported } => "unsupported payload format version "@ + decimal(found as nat)
            + ": this build supports "@ + decimal(supported as nat)
            + ". The data dir was written by a newer SalamanderDB; upgrade to read it."@,
        ErrorView::UnsupportedStorageFormat { found, supported } => "unsupported storage format version "@ + decimal(found as nat)
            + ": this build writes version "@ + decimal(supported as nat)
            + "; migrate the source directory offline"@,
        ErrorView::InvalidSegmentName(s) => "invalid segment file name: "@ + s,
        ErrorView::NamespaceExists(s) => "namespace "@ + s + " already exists"@,
        ErrorView::Locked(s) => "data dir is locked by another process: "@ + s,
        ErrorView::Serialization(s) => "serialization error: "@ + s,
        ErrorView::InvalidFormat(s) => "invalid format: "@ + s,
        ErrorView::Codec(s) => "codec error: "@ + s,
        ErrorView::ResourceLimit { resource, actual, maximum } => "resource limit exceeded: "@ + resource + " is "@
            + decimal(actual as nat) + ", maximum is "@ + decimal(maximum as nat),
        ErrorView::Migration(s) => "migration error: "@ + s,
        ErrorView::MigrationIncomplete(s) => "migration is incomplete for "@ + s + "; resume it with the migration command"@,
        ErrorView::RevisionConflict { expected, actual } => "stream revision conflict: expected "@ + expected + ", actual "@ + actual,
        ErrorView::EventIdConflict => "event ID already exists with different content"@,
        ErrorView::IdempotencyConflict => "idempotency key already exists with different content"@,
        ErrorView::BatchIdConflict => "batch ID already exists with different content"@,
        ErrorView::BranchNotFound(s) => "branch not found: "@ + s,
        ErrorView::BranchExists(s) => "branch already exists: "@ + s,
        ErrorView::BranchArchived(s) => "branch is archived: "@ + s,
        ErrorView::InvalidBranchAncestry(s) => "invalid branch ancestry: "@ + s,
        ErrorView::NotBatchBoundary(n) => "position "@ + decimal(n as nat) + " is not a committed batch boundary"@,
        ErrorView::PositionUnavailable { requested, floor, head, bootstrap_available } => "position "@
            + decimal(requested as nat) + " is below the retention floor "@ + decimal(floor as nat)
            + " (head "@ + decimal(head as nat) + ")"@,
    }
}

impl SalamanderError {
    /// The text that the error is shown as.
    pub fn message(&self) -> (s: String)
        ensures
            s@ == message_of(self@),
    {
        match self {
            SalamanderError::InvalidArgument(s) => join2("invalid argument: ", s.as_str()),
            SalamanderError::Io(s) => join2("io: ", s.as_str()),
            SalamanderError::Corrupt { offset, reason } => join4(
                "corrupt record at offset ",
                decimal_string(*offset).as_str(),
                ": ",
                reason.as_str(),
            ),
            SalamanderError::OffsetBeyondHead(n) => join3("offset ", decimal_string(*n).as_str(), " beyond head"),
            SalamanderError::Manifest(s) => join2("manifest error: ", s.as_str()),
            SalamanderError::UnsupportedFormat { found, supported } => {
                let mut s = join4(
                    "unsupported payload format version ",
                    decimal_string(*found as u64).as_str(),
                    ": this build supports ",
                    decimal_string(*supported as u64).as_str(),
                );
                s.append(". The data dir was written by a newer SalamanderDB; upgrade to read it.");
                s
            },
            SalamanderError::UnsupportedStorageFormat { found, supported } => {
                let mut s = join4(
                    "unsupported storage format version ",
                    decimal_string(*found as u64).as_str(),
                    ": this build writes version ",
                    decimal_string(*supported as u64).as_str(),
                );
                s.append("; migrate the source directory offline");
                s
            },
            SalamanderError::InvalidSegmentName(s) => join2("invalid segment file name: ", s.as_str()),
            SalamanderError::NamespaceExists(s) => join3("namespace ", s.as_str(), " already exists"),
            SalamanderError::Locked(s) => join2("data dir is locked by another process: ", s.as_str()),
            SalamanderError::Serialization(s) => join2("serialization error: ", s.as_str()),
            SalamanderError::InvalidFormat(s) => join2("invalid format: ", s.as_str()),
            SalamanderError::Codec(s) => join2("codec error: ", s.as_str()),
            SalamanderError::ResourceLimit { resource, actual, maximum } => {
                let mut s = join4("resource limit exceeded: ", resource, " is ", decimal_string(*actual).as_str());
                s.append(", maximum is ");
                s.append(decimal_string(*maximum).as_str());
                s
            },
            SalamanderError::Migration(s) => join2("migration error: ", s.as_str()),
            SalamanderError::MigrationIncomplete(s) => join3(
                "migration is incomplete for ",
                s.as_str(),
                "; resume it with the migration command",
            ),
            SalamanderError::RevisionConflict { expected, actual } => join4(
                "stream revision conflict: expected ",
                expected.as_str(),
                ", actual ",
                actual.as_str(),
            ),
            SalamanderError::EventIdConflict => "event ID already exists with different content".to_owned(),
            SalamanderError::IdempotencyConflict => "idempotency key already exists with different content".to_owned(),
            SalamanderError::BatchIdConflict => "batch ID already exists with different content".to_owned(),
            SalamanderError::BranchNotFound(s) => join2("branch not found: ", s.as_str()),
            SalamanderError::BranchExists(s) => join2("branch already exists: ", s.as_str()),
            SalamanderError::BranchArchived(s) => join2("branch is archived: ", s.as_str()),
            SalamanderError::InvalidBranchAncestry(s) => join2("invalid branch ancestry: ", s.as_str()),
            SalamanderError::NotBatchBoundary(n) => join3(
                "position ",
                decimal_string(*n).as_str(),
                " is not a committed batch boundary",
            ),
            SalamanderError::PositionUnavailable { requested, floor, head, bootstrap_available: _ } => {
                let mut s = join4(
                    "position ",
                    decimal_string(*requested).as_str(),
                    " is below the retention floor ",
                    decimal_string(*floor).as_str(),
                );
                s.append(" (head ");
                s.append(decimal_string(*head).as_str());
                s.append(")");
                s
            },
        }
    }
}

pub fn invalid_format(message: &str) -> (e: SalamanderError)
    ensures
        e@ == ErrorView::InvalidFormat(message@),
{
    SalamanderError::InvalidFormat(message.to_owned())
}

pub fn invalid_argument(message: &str) -> (e: SalamanderError)
    ensures
        e@ == ErrorView::InvalidArgument(message@),
{
    SalamanderError::InvalidArgument(message.to_owned())
}

pub fn corrupt(offset: u64, message: &str) -> (e: SalamanderError)
    ensures
        e@ == (ErrorView::Corrupt { offset, reason: message@ }),
{
    SalamanderError::Corrupt { offset, reason: message.to_owned() }
}

} // verus!

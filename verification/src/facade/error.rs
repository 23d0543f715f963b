//! Errors as callers across the service boundary see them.
use crate::error::{ErrorView, SalamanderError};
use crate::text::{decimal, decimal_string, join2, join3, join4};
use vstd::prelude::*;

verus! {

/// What sort of thing went wrong.
#[derive(Debug, Clone, Copy, PartialEq, Eq, Structural)]
pub enum ErrorCategory {
    InvalidArgument,
    Conflict,
    NotFound,
    Locked,
    Corruption,
    UnsupportedFormat,
    Codec,
    Io,
    Cancelled,
    ResourceLimit,
    Internal,
}

/// An error with its category and a stable code.
#[derive(Debug, PartialEq, Eq)]
pub struct EngineError {
    pub category: ErrorCategory,
    pub code: &'static str,
    pub message: String,
}

/// An error as plain values.
#[verifier::ext_equal]
pub struct EngineErrorView {
    pub category: ErrorCategory,
    pub code: Seq<char>,
    pub message: Seq<char>,
}

impl View for EngineError {
    type V = EngineErrorView;

    open spec fn view(&self) -> EngineErrorView {
        EngineErrorView { category: self.category, code: self.code@, message: self.message@ }
    }
}

/// The category and code of each of the engine's own errors.
pub open spec fn classified(e: ErrorView) -> (ErrorCategory, Seq<char>) {
    match e {
        ErrorView::InvalidArgument(_) | ErrorView::NotBatchBoundary(_) => (ErrorCategory::InvalidArgument, "invalid_argument"@),
        ErrorView::RevisionConflict { .. } | ErrorView::EventIdConflict | ErrorView::IdempotencyConflict
        | ErrorView::BatchIdConflict | ErrorView::BranchExists(_) | ErrorView::NamespaceExists(_) => (
            ErrorCategory::Conflict,
            "conflict"@,
        ),
        ErrorView::BranchNotFound(_) => (ErrorCategory::NotFound, "not_found"@),
        ErrorView::Locked(_) => (ErrorCategory::Locked, "locked"@),
        ErrorView::Corrupt { .. } | ErrorView::Manifest(_) | ErrorView::InvalidFormat(_) | ErrorView::InvalidSegmentName(_)
        | ErrorView::InvalidBranchAncestry(_) => (ErrorCategory::Corruption, "corruption"@),
        ErrorView::UnsupportedFormat { .. } | ErrorView::UnsupportedStorageFormat { .. } => (
            ErrorCategory::UnsupportedFormat,
            "unsupported_format"@,
        ),
        ErrorView::Codec(_) | ErrorView::Serialization(_) => (ErrorCategory::Codec, "codec"@),
        ErrorView::Io(_) => (ErrorCategory::Io, "io"@),
        ErrorView::ResourceLimit { .. } => (ErrorCategory::ResourceLimit, "resource_limit"@),
        ErrorView::OffsetBeyondHead(_) => (ErrorCategory::InvalidArgument, "offset_beyond_head"@),
        ErrorView::BranchArchived(_) => (ErrorCategory::Conflict, "branch_archived"@),
        ErrorView::Migration(_) | ErrorView::MigrationIncomplete(_) => (ErrorCategory::Internal, "migration"@),
        ErrorView::PositionUnavailable { .. } => (ErrorCategory::InvalidArgument, "position_unavailable"@),
    }
}

/// The engine's own error as callers see it.
pub open spec fn engine_error(e: ErrorView) -> EngineErrorView {
    EngineErrorView { category: classified(e).0, code: classified(e).1, message: crate::error::message_of(e) }
}

fn classify(e: &SalamanderError) -> (r: (ErrorCategory, &'static str))
    ensures
        r.0 == classified(e@).0,
        r.1@ == classified(e@).1,
{
    match e {
        SalamanderError::InvalidArgument(_) | SalamanderError::NotBatchBoundary(_) => (
            ErrorCategory::InvalidArgument,
            "invalid_argument",
        ),
        SalamanderError::RevisionConflict { .. } | SalamanderError::EventIdConflict | SalamanderError::IdempotencyConflict
        | SalamanderError::BatchIdConflict | SalamanderError::BranchExists(_) | SalamanderError::NamespaceExists(_) => (
            ErrorCategory::Conflict,
            "conflict",
        ),
        SalamanderError::BranchNotFound(_) => (ErrorCategory::NotFound, "not_found"),
        SalamanderError::Locked(_) => (ErrorCategory::Locked, "locked"),
        SalamanderError::Corrupt { .. } | SalamanderError::Manifest(_) | SalamanderError::InvalidFormat(_)
        | SalamanderError::InvalidSegmentName(_) | SalamanderError::InvalidBranchAncestry(_) => (
            ErrorCategory::Corruption,
            "corruption",
        ),
        SalamanderError::UnsupportedFormat { .. } | SalamanderError::UnsupportedStorageFormat { .. } => (
            ErrorCategory::UnsupportedFormat,
            "unsupported_format",
        ),
        SalamanderError::Codec(_) | SalamanderError::Serialization(_) => (ErrorCategory::Codec, "codec"),
        SalamanderError::Io(_) => (ErrorCategory::Io, "io"),
        SalamanderError::ResourceLimit { .. } => (ErrorCategory::ResourceLimit, "resource_limit"),
        SalamanderError::OffsetBeyondHead(_) => (ErrorCategory::InvalidArgument, "offset_beyond_head"),
        SalamanderError::BranchArchived(_) => (ErrorCategory::Conflict, "branch_archived"),
        SalamanderError::Migration(_) | SalamanderError::MigrationIncomplete(_) => (ErrorCategory::Internal, "migration"),
        SalamanderError::PositionUnavailable { .. } => (ErrorCategory::InvalidArgument, "position_unavailable"),
    }
}

impl From<SalamanderError> for EngineError {
    fn from(error: SalamanderError) -> (r: Self)
        ensures
            r@ == engine_error(error@),
    {
        EngineError::from_core(&error)
    }
}

impl vstd::std_specs::convert::FromSpecImpl<SalamanderError> for EngineError {
    open spec fn obeys_from_spec() -> bool {
        false
    }

    open spec fn from_spec(v: SalamanderError) -> Self {
        arbitrary()
    }
}

/// The error of a call on a handle that was closed.
pub open spec fn closed_error() -> EngineErrorView {
    EngineErrorView { category: ErrorCategory::Cancelled, code: "engine_closed"@, message: "engine handle is closed"@ }
}

/// The error of a reader or feed that was cancelled.
pub open spec fn cancelled_error(message: Seq<char>) -> EngineErrorView {
    EngineErrorView { category: ErrorCategory::Cancelled, code: "cancelled"@, message }
}

/// An argument that cannot be.
pub open spec fn invalid_error(message: Seq<char>) -> EngineErrorView {
    EngineErrorView { category: ErrorCategory::InvalidArgument, code: "invalid_argument"@, message }
}

/// A handle that stands for nothing.
pub open spec fn not_found_error(kind: Seq<char>) -> EngineErrorView {
    EngineErrorView { category: ErrorCategory::NotFound, code: "not_found"@, message: kind + " handle was not found"@ }
}

/// A size above its maximum.
pub open spec fn resource_error(name: Seq<char>, actual: int, maximum: int) -> EngineErrorView {
    EngineErrorView {
        category: ErrorCategory::ResourceLimit,
        code: "resource_limit"@,
        message: name + " is "@ + decimal(actual as nat) + ", maximum is "@ + decimal(maximum as nat),
    }
}

/// A conflict with the state that something is in.
pub open spec fn conflict_error(code: Seq<char>, message: Seq<char>) -> EngineErrorView {
    EngineErrorView { category: ErrorCategory::Conflict, code, message }
}

/// A fault of the engine's own.
pub open spec fn internal_error(message: Seq<char>) -> EngineErrorView {
    EngineErrorView { category: ErrorCategory::Internal, code: "internal"@, message }
}

impl EngineError {
    /// The engine's own error as callers see it.
    pub fn from_core(error: &SalamanderError) -> (r: Self)
        ensures
            r@ == engine_error(error@),
    {
        let (category, code) = classify(error);
        EngineError { category, code, message: error.message() }
    }

    /// The text that the error is shown as.
    pub fn message(&self) -> (s: String)
        ensures
            s@ == self@.code + ": "@ + self@.message,
    {
        join3(self.code, ": ", self.message.as_str())
    }

    pub fn closed() -> (r: Self)
        ensures
            r@ == closed_error(),
    {
        EngineError { category: ErrorCategory::Cancelled, code: "engine_closed", message: "engine handle is closed".to_owned() }
    }

    pub fn cancelled(message: &str) -> (r: Self)
        ensures
            r@ == cancelled_error(message@),
    {
        EngineError { category: ErrorCategory::Cancelled, code: "cancelled", message: message.to_owned() }
    }

    pub fn internal(message: &str) -> (r: Self)
        ensures
            r@ == internal_error(message@),
    {
        EngineError { category: ErrorCategory::Internal, code: "internal", message: message.to_owned() }
    }

    pub fn invalid(message: &str) -> (r: Self)
        ensures
            r@ == invalid_error(message@),
    {
        EngineError { category: ErrorCategory::InvalidArgument, code: "invalid_argument", message: message.to_owned() }
    }

    pub fn not_found(kind: &str) -> (r: Self)
        ensures
            r@ == not_found_error(kind@),
    {
        EngineError { category: ErrorCategory::NotFound, code: "not_found", message: join2(kind, " handle was not found") }
    }

    pub fn resource(name: &str, actual: usize, maximum: usize) -> (r: Self)
        ensures
            r@ == resource_error(name@, actual as int, maximum as int),
    {
        let mut message = join4(name, " is ", decimal_string(actual as u64).as_str(), ", maximum is ");
        message.append(decimal_string(maximum as u64).as_str());
        EngineError { category: ErrorCategory::ResourceLimit, code: "resource_limit", message }
    }

    pub fn conflict(code: &'static str, message: &str) -> (r: Self)
        ensures
            r@ == conflict_error(code@, message@),
    {
        EngineError { category: ErrorCategory::Conflict, code, message: message.to_owned() }
    }
}

} // verus!

use salamander::error::SalamanderError;
use salamander::facade::error::{EngineError, ErrorCategory};

#[test]
fn every_core_error_maps_to_a_stable_category() {
    let cases = [
        (SalamanderError::InvalidArgument("x".into()), ErrorCategory::InvalidArgument),
        (SalamanderError::EventIdConflict, ErrorCategory::Conflict),
        (SalamanderError::BranchNotFound("x".into()), ErrorCategory::NotFound),
        (SalamanderError::Locked("x".into()), ErrorCategory::Locked),
        (SalamanderError::Corrupt { offset: 0, reason: "x".into() }, ErrorCategory::Corruption),
        (SalamanderError::UnsupportedFormat { found: 9, supported: 1 }, ErrorCategory::UnsupportedFormat),
        (SalamanderError::Codec("x".into()), ErrorCategory::Codec),
        (SalamanderError::Io("x".into()), ErrorCategory::Io),
        (SalamanderError::ResourceLimit { resource: "x", actual: 2, maximum: 1 }, ErrorCategory::ResourceLimit),
        (SalamanderError::Migration("x".into()), ErrorCategory::Internal),
    ];
    for (error, expected) in cases {
        let mapped = EngineError::from(error);
        assert_eq!(mapped.category, expected);
        assert!(!mapped.code.is_empty());
    }
}

#[test]
fn an_error_shows_its_code_and_its_message() {
    let error = EngineError::from(SalamanderError::Corrupt { offset: 7, reason: "bad".into() });
    assert_eq!(error.message(), "corruption: corrupt record at offset 7: bad");
    let error = EngineError::resource("page events", 9, 4);
    assert_eq!(error.message(), "resource_limit: page events is 9, maximum is 4");
}

#[test]
fn texts_of_errors_are_exact() {
    let cases: Vec<(SalamanderError, &str)> = vec![
        (SalamanderError::InvalidArgument("a".into()), "invalid argument: a"),
        (SalamanderError::Io("a".into()), "io: a"),
        (SalamanderError::OffsetBeyondHead(12), "offset 12 beyond head"),
        (SalamanderError::Manifest("a".into()), "manifest error: a"),
        (SalamanderError::InvalidSegmentName("a".into()), "invalid segment file name: a"),
        (SalamanderError::NamespaceExists("a".into()), "namespace a already exists"),
        (SalamanderError::Serialization("a".into()), "serialization error: a"),
        (SalamanderError::InvalidFormat("a".into()), "invalid format: a"),
        (
            SalamanderError::ResourceLimit { resource: "payload bytes", actual: 17, maximum: 16 },
            "resource limit exceeded: payload bytes is 17, maximum is 16",
        ),
        (
            SalamanderError::RevisionConflict { expected: "exact 3".into(), actual: "4".into() },
            "stream revision conflict: expected exact 3, actual 4",
        ),
        (SalamanderError::NotBatchBoundary(5), "position 5 is not a committed batch boundary"),
        (SalamanderError::BranchArchived("b".into()), "branch is archived: b"),
    ];
    for (error, text) in cases {
        assert_eq!(error.message(), text);
    }
}

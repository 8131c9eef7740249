//! Envelopes, policies and the errors of evidence.
use faktor::ids::{SessionId, WorkspaceId};
use faktor::types::{
    BackingCompleteness, CompactRepresentation, Compressibility, CompressionRecord, EvidenceEnvelope,
    EvidenceError, EvidenceId, EvidenceKind, Lossiness, ProvenanceSet, ProvenanceSource,
    RetrievalPolicy,
};


type MakeResult = Result<EvidenceEnvelope, EvidenceError>;

fn make(
    compressibility: Compressibility,
    backing_hash: Option<[u8; 32]>,
    backing_completeness: BackingCompleteness,
    lossiness: Lossiness,
    backing_digest: Option<[u8; 32]>,
) -> MakeResult {
    EvidenceEnvelope::new(
        EvidenceId(7),
        EvidenceKind::TestReport,
        SessionId::new(1),
        WorkspaceId::new(2),
        Some(3),
        Some("rev-abc".to_string()),
        ProvenanceSet::new(vec![ProvenanceSource::Tool]),
        compressibility,
        CompactRepresentation {
            grammar: "test-v1".to_string(),
            body: "PASS tests=3 failed=0".to_string(),
        },
        backing_hash,
        backing_completeness,
        CompressionRecord {
            algorithm: "zstd".to_string(),
            version: 1,
            original_bytes: 100,
            compact_bytes: 20,
            lossiness,
            backing_digest,
        },
        RetrievalPolicy::new(true, true, 4096),
    )
}

#[test]
fn default_compressibility_table_is_exact() {
    let table = [
        (EvidenceKind::DiagnosticSet, Compressibility::Aggressive),
        (EvidenceKind::TestReport, Compressibility::Aggressive),
        (EvidenceKind::SearchResults, Compressibility::Aggressive),
        (EvidenceKind::FileMap, Compressibility::Aggressive),
        (EvidenceKind::ProcessLog, Compressibility::Aggressive),
        (EvidenceKind::SymbolSet, Compressibility::Aggressive),
        (EvidenceKind::StructuredRows, Compressibility::Aggressive),
        (EvidenceKind::Diff, Compressibility::Reversible),
        (EvidenceKind::ChildHandoff, Compressibility::Reversible),
        (EvidenceKind::SemanticContext, Compressibility::Reversible),
        (EvidenceKind::GenericText, Compressibility::LosslessOnly),
    ];
    assert_eq!(table.len(), 11, "every kind must be covered exactly once");
    for (kind, expected) in table {
        assert_eq!(
            kind.default_compressibility(),
            expected,
            "wrong policy for {kind:?}"
        );
    }
    // Policy inputs are NEVER compacted, regardless of kind.
    assert_eq!(Compressibility::for_policy_inputs(), Compressibility::Never);
}

#[test]
fn reversible_requires_complete_backing_rows() {
    let hash = [7u8; 32];
    let digest = [8u8; 32];

    // The only admissible reversible row: complete backing + hash.
    assert!(make(
        Compressibility::Reversible,
        Some(hash),
        BackingCompleteness::Complete,
        Lossiness::Lossless,
        None
    )
    .is_ok());

    // Reversible without a backing hash: refused.
    let err = make(
        Compressibility::Reversible,
        None,
        BackingCompleteness::Complete,
        Lossiness::Lossless,
        None,
    )
    .unwrap_err();
    assert!(matches!(err, EvidenceError::Refused(_)), "{err:?}");

    // Reversible over truncated backing, even with a hash: refused.
    let err = make(
        Compressibility::Reversible,
        Some(hash),
        BackingCompleteness::Truncated,
        Lossiness::Lossless,
        None,
    )
    .unwrap_err();
    assert!(matches!(err, EvidenceError::Refused(_)), "{err:?}");

    // Both missing: still refused, never a silent downgrade.
    let err = make(
        Compressibility::Reversible,
        None,
        BackingCompleteness::Truncated,
        Lossiness::Lossless,
        None,
    )
    .unwrap_err();
    assert!(matches!(err, EvidenceError::Refused(_)), "{err:?}");

    // Non-reversible kinds may legitimately carry truncated backing.
    assert!(make(
        Compressibility::Aggressive,
        None,
        BackingCompleteness::Truncated,
        Lossiness::Structured,
        None
    )
    .is_ok());
    assert!(make(
        Compressibility::LosslessOnly,
        None,
        BackingCompleteness::Truncated,
        Lossiness::Lossless,
        None
    )
    .is_ok());
    assert!(make(
        Compressibility::Never,
        None,
        BackingCompleteness::Truncated,
        Lossiness::Lossless,
        None
    )
    .is_ok());
    // A complete backing with content loss and a digest is admissible.
    assert!(make(
        Compressibility::Aggressive,
        Some(hash),
        BackingCompleteness::Complete,
        Lossiness::Content,
        Some(digest)
    )
    .is_ok());
}

#[test]
fn lossy_content_without_backing_digest_is_refused() {
    let err = make(
        Compressibility::Aggressive,
        Some([1u8; 32]),
        BackingCompleteness::Complete,
        Lossiness::Content,
        None,
    )
    .unwrap_err();
    assert!(matches!(err, EvidenceError::Refused(_)), "{err:?}");
    assert!(err.to_string().contains("digest"), "{err:?}");

    // Structural loss does not demand a digest (only Content does).
    assert!(make(
        Compressibility::Aggressive,
        Some([1u8; 32]),
        BackingCompleteness::Complete,
        Lossiness::Structured,
        None
    )
    .is_ok());
}

#[test]
fn evidence_id_display_and_from_str_hostile_inputs() {
    assert_eq!(EvidenceId(42).to_string(), "42");
    assert_eq!("42".parse::<EvidenceId>().unwrap(), EvidenceId(42));

    let hostile = [
        "",                     // empty
        " ",                    // whitespace only
        " 42",                  // leading whitespace
        "42 ",                  // trailing whitespace
        "-1",                   // negative
        "-0",                   // negative zero
        "4 2",                  // embedded whitespace
        "0x2a",                 // radix prefix
        "42abc",                // trailing garbage
        "4.2",                  // float
        "1e3",                  // exponent
        "١٢٣",                  // non-ascii digits
        "18446744073709551616", // u64::MAX + 1 overflow
        "null",                 // json literal as text
    ];
    for raw in hostile {
        let err = raw.parse::<EvidenceId>().unwrap_err();
        assert!(
            matches!(err, EvidenceError::Malformed(_)),
            "{raw:?} must be a typed Malformed error, got {err:?}"
        );
        assert!(!err.to_string().is_empty());
    }
    // The largest raw id is a valid id.
    assert_eq!("18446744073709551615".parse::<EvidenceId>().unwrap(), EvidenceId(u64::MAX));
}

#[test]
fn provenance_only_user_policy_has_instruction_authority() {
    assert!(ProvenanceSource::UserPolicy.is_instruction_authority());
    for source in [
        ProvenanceSource::Tool,
        ProvenanceSource::Repository,
        ProvenanceSource::Verification,
        ProvenanceSource::Model,
        ProvenanceSource::SemanticProvider,
        ProvenanceSource::AgentCoordination,
    ] {
        assert!(
            !source.is_instruction_authority(),
            "{source:?} must never carry instruction authority"
        );
    }

    let tool_only = ProvenanceSet::new(vec![
        ProvenanceSource::Tool,
        ProvenanceSource::Repository,
        ProvenanceSource::Model,
    ]);
    assert!(!tool_only.has_instruction_authority());
    assert_eq!(tool_only.len(), 3);
    assert!(!tool_only.is_empty());

    let with_user = ProvenanceSet::new(vec![ProvenanceSource::Tool, ProvenanceSource::UserPolicy]);
    assert!(with_user.has_instruction_authority());

    // Unknown provenance is empty, never implicitly trusted.
    let empty = ProvenanceSet::default();
    assert!(empty.is_empty());
    assert!(!empty.has_instruction_authority());
}

#[test]
fn retrieval_policy_decisions_are_typed() {
    let open = RetrievalPolicy::new(true, true, 10);
    assert!(open.check_search().is_ok());
    assert!(open.check_range(0).is_ok());
    assert!(open.check_range(10).is_ok(), "bound is inclusive");
    match open.check_range(11) {
        Err(EvidenceError::Oversized { max, actual }) => {
            assert_eq!((max, actual), (10, 11));
        }
        other => panic!("expected Oversized, got {other:?}"),
    }

    let closed = RetrievalPolicy::new(false, false, 10);
    match closed.check_search() {
        Err(EvidenceError::AccessDenied(_)) => {}
        other => panic!("expected AccessDenied, got {other:?}"),
    }
    match closed.check_range(1) {
        Err(EvidenceError::AccessDenied(_)) => {}
        other => panic!("expected AccessDenied, got {other:?}"),
    }
    // A zero-byte ceiling refuses every non-empty read before it happens.
    let zero = RetrievalPolicy::new(true, true, 0);
    assert!(zero.check_range(0).is_ok());
    assert!(matches!(
        zero.check_range(1),
        Err(EvidenceError::Oversized { max: 0, actual: 1 })
    ));
}

#[test]
fn identity_compression_record_is_lossless_verbatim() {
    let rec = CompressionRecord::identity(1234);
    assert_eq!(rec.original_bytes, rec.compact_bytes);
    assert_eq!(rec.lossiness, Lossiness::Lossless);
    assert_eq!(rec.backing_digest, None);
    assert_eq!(rec.version, 1);

    // All four error variants render non-empty, distinct Display text.
    let rendered = [
        EvidenceError::Malformed("x".to_string()).to_string(),
        EvidenceError::Oversized { max: 1, actual: 2 }.to_string(),
        EvidenceError::AccessDenied("x".to_string()).to_string(),
        EvidenceError::Refused("x".to_string()).to_string(),
    ];
    for text in &rendered {
        assert!(!text.is_empty());
    }
    let unique: std::collections::BTreeSet<_> = rendered.iter().collect();
    assert_eq!(
        unique.len(),
        rendered.len(),
        "variants must be distinguishable"
    );
}

//! Compaction of evidence, one body for each kind.
use faktor::compress::{compress, compress_for, compress_never_identity, compress_with, MAX_COMPACT_BYTES};
use faktor::types::{BackingCompleteness, Compressibility, EvidenceError, EvidenceKind, Lossiness};

const ALL_KINDS: [EvidenceKind; 11] = [
    EvidenceKind::DiagnosticSet,
    EvidenceKind::TestReport,
    EvidenceKind::SearchResults,
    EvidenceKind::FileMap,
    EvidenceKind::Diff,
    EvidenceKind::ProcessLog,
    EvidenceKind::SymbolSet,
    EvidenceKind::StructuredRows,
    EvidenceKind::ChildHandoff,
    EvidenceKind::SemanticContext,
    EvidenceKind::GenericText,
];

fn digest(raw: &str) -> Option<[u8; 32]> {
    Some(*blake3::hash(raw.as_bytes()).as_bytes())
}

#[test]
fn compress_for_delegates_to_kind_policy() {
    for kind in ALL_KINDS {
        assert_eq!(compress_for(&kind), kind.default_compressibility());
    }
    assert_eq!(
        compress_for(&EvidenceKind::ProcessLog),
        Compressibility::Aggressive
    );
    assert_eq!(
        compress_for(&EvidenceKind::Diff),
        Compressibility::Reversible
    );
    assert_eq!(
        compress_for(&EvidenceKind::GenericText),
        Compressibility::LosslessOnly
    );
}

#[test]
fn lossy_compressor_rejects_never_class() {
    assert_eq!(Compressibility::for_policy_inputs(), Compressibility::Never);
    for completeness in [
        BackingCompleteness::Complete,
        BackingCompleteness::Truncated,
    ] {
        for raw in ["", "goal: do the thing", "instructions\nstep 1\n"] {
            let err = compress_with(
                &EvidenceKind::GenericText,
                Compressibility::Never,
                completeness,
                raw,
            )
            .unwrap_err();
            assert!(matches!(err, EvidenceError::Refused(_)), "{err:?}");
            assert!(err.to_string().contains("Never"), "{err:?}");
        }
    }
    // The only authorised Never path is the explicit identity copy.
    let (compact, record) = compress_never_identity("goal: do the thing");
    assert_eq!(compact.body, "goal: do the thing");
    assert_eq!(compact.grammar, "identity-v1");
    assert_eq!(record.lossiness, Lossiness::Lossless);
    assert_eq!(record.backing_digest, None);
}

#[test]
fn reversible_requires_complete_backing() {
    let diff = "diff --git a/x b/x\n--- a/x\n+++ b/x\n@@ -1,3 +1,3 @@\n-a\n+b\n c\n";
    let err = compress_with(
        &EvidenceKind::Diff,
        Compressibility::Reversible,
        BackingCompleteness::Truncated,
        diff,
    )
    .unwrap_err();
    assert!(matches!(err, EvidenceError::Refused(_)), "{err:?}");
    assert!(err.to_string().contains("truncated"), "{err:?}");

    let (compact, record) = compress_with(
        &EvidenceKind::Diff,
        Compressibility::Reversible,
        BackingCompleteness::Complete,
        diff,
    )
    .unwrap();
    assert_eq!(compact.grammar, "diff-v1");
    assert_eq!(record.lossiness, Lossiness::Structured);
    assert_eq!(record.backing_digest, digest(diff));
    assert_eq!(record.original_bytes, diff.len() as u64);
    assert_eq!(record.compact_bytes, compact.body.len() as u64);
    assert!(compact.body.contains("@@ -1,3 +1,3 @@"), "{}", compact.body);
}

#[test]
fn truncated_backing_cannot_claim_reversible() {
    let raw = "@@ -1 +1 @@\n-old\n+new\n";
    for kind in [
        EvidenceKind::Diff,
        EvidenceKind::ChildHandoff,
        EvidenceKind::SemanticContext,
    ] {
        let err = compress(&kind, BackingCompleteness::Truncated, raw).unwrap_err();
        assert!(
            matches!(err, EvidenceError::Refused(_)),
            "{kind:?}: {err:?}"
        );
    }
    // Aggressive kinds may compact truncated backing, but must still tie
    // the lossy body to the backing bytes via a digest.
    let log = "spam\nspam\nERROR: boom\n";
    let (compact, record) = compress(
        &EvidenceKind::ProcessLog,
        BackingCompleteness::Truncated,
        log,
    )
    .unwrap();
    assert_eq!(record.lossiness, Lossiness::Content);
    assert_eq!(record.backing_digest, digest(log));
    assert!(compact.body.contains("ERROR: boom"));
}

#[test]
fn lossless_identity_exact() {
    let raw = "generic text\nwith  weird\t spacing\r\nand snowman \u{2603}\n";
    let (compact, record) = compress(
        &EvidenceKind::GenericText,
        BackingCompleteness::Complete,
        raw,
    )
    .unwrap();
    assert_eq!(compact.body, raw);
    assert_eq!(compact.grammar, "identity-v1");
    assert_eq!(record.algorithm, "faktor-compress-v1");
    assert_eq!(record.version, 1);
    assert_eq!(record.original_bytes, raw.len() as u64);
    assert_eq!(record.compact_bytes, raw.len() as u64);
    assert_eq!(record.lossiness, Lossiness::Lossless);
    assert_eq!(record.backing_digest, None);

    // Truncated backing does not block an honest lossless copy.
    let (compact, record) = compress(
        &EvidenceKind::GenericText,
        BackingCompleteness::Truncated,
        raw,
    )
    .unwrap();
    assert_eq!(compact.body, raw);
    assert_eq!(record.lossiness, Lossiness::Lossless);

    let (compact, record) = compress_never_identity(raw);
    assert_eq!(compact.body, raw);
    assert_eq!(record.original_bytes, raw.len() as u64);
    assert_eq!(record.compact_bytes, raw.len() as u64);
    assert_eq!(record.lossiness, Lossiness::Lossless);
}

#[test]
fn empty_input_ok() {
    for kind in ALL_KINDS {
        let policy = compress_for(&kind);
        let completeness = if policy == Compressibility::Reversible {
            BackingCompleteness::Complete
        } else {
            BackingCompleteness::Truncated
        };
        let (compact, record) = compress(&kind, completeness, "").unwrap();
        assert_eq!(record.original_bytes, 0, "{kind:?}");
        assert_eq!(record.compact_bytes, compact.body.len() as u64, "{kind:?}");
        assert!(compact.body.len() <= MAX_COMPACT_BYTES, "{kind:?}");
        assert!(!compact.grammar.is_empty(), "{kind:?}");
        match policy {
            Compressibility::LosslessOnly => {
                assert!(compact.body.is_empty(), "{kind:?}");
                assert_eq!(record.backing_digest, None, "{kind:?}");
            }
            Compressibility::Aggressive => {
                assert_eq!(record.lossiness, Lossiness::Content, "{kind:?}");
                assert_eq!(record.backing_digest, digest(""), "{kind:?}");
            }
            Compressibility::Reversible => {
                assert_eq!(record.lossiness, Lossiness::Structured, "{kind:?}");
                assert_eq!(record.backing_digest, digest(""), "{kind:?}");
            }
            Compressibility::Never => unreachable!("no kind defaults to Never"),
        }
    }
}

#[test]
fn process_log_collapses_runs_and_keeps_failures() {
    let raw = "spam\nspam\nspam\nINFO ok\nboom ERROR: kaboom\nboom ERROR: kaboom\n";
    let (compact, record) = compress(
        &EvidenceKind::ProcessLog,
        BackingCompleteness::Complete,
        raw,
    )
    .unwrap();
    assert!(compact.body.contains("spam x3"), "{}", compact.body);
    assert!(compact.body.contains("INFO ok"), "{}", compact.body);
    assert!(compact.body.contains("ERROR: kaboom"), "{}", compact.body);
    assert_eq!(record.lossiness, Lossiness::Content);
    assert_eq!(record.backing_digest, digest(raw));
    assert_eq!(record.compact_bytes, compact.body.len() as u64);
}

#[test]
fn test_report_keeps_failed_rows_and_counts() {
    let raw = "test a ... ok\ntest b ... ok\ntest c ... FAILED\n\
               test result: FAILED. 2 passed; 1 failed\n";
    let (compact, _) = compress(
        &EvidenceKind::TestReport,
        BackingCompleteness::Complete,
        raw,
    )
    .unwrap();
    assert!(
        compact.body.contains("test c ... FAILED"),
        "{}",
        compact.body
    );
    assert!(compact.body.contains("passed=2"), "{}", compact.body);
    assert!(compact.body.contains("failed=2"), "{}", compact.body);
    assert!(!compact.body.contains("test a ... ok"), "{}", compact.body);
}

#[test]
fn diagnostic_and_search_rows_dedupe_on_path_line() {
    let raw = "src/a.rs:1:1: error: nope\nsrc/a.rs:1:1: error: nope\n\
               src/b.rs:2:1: warning: hmm\n";
    let (compact, _) = compress(
        &EvidenceKind::DiagnosticSet,
        BackingCompleteness::Truncated,
        raw,
    )
    .unwrap();
    assert!(compact.body.contains("unique=2"), "{}", compact.body);
    assert!(compact.body.contains("duplicates=1"), "{}", compact.body);
    assert_eq!(
        compact.body.matches("src/a.rs").count(),
        1,
        "{}",
        compact.body
    );

    let hits = "src/a.rs:10:hit one\nsrc/a.rs:10:hit one\nsrc/a.rs:11:hit two\n";
    let (compact, _) = compress(
        &EvidenceKind::SearchResults,
        BackingCompleteness::Truncated,
        hits,
    )
    .unwrap();
    assert!(compact.body.contains("unique=2"), "{}", compact.body);
    assert_eq!(
        compact.body.matches("src/a.rs:10").count(),
        1,
        "{}",
        compact.body
    );
}

#[test]
fn column_table_caps_columns_and_dedupes_rows() {
    let raw = "src/a.rs 10 20 30 40 50 60 70\nsrc/a.rs 10 20 30 40 50 60 70\n\
               src/b.rs 30 40 50 60 70 80 90\n";
    let (compact, _) =
        compress(&EvidenceKind::FileMap, BackingCompleteness::Truncated, raw).unwrap();
    assert!(compact.body.contains("kept=2"), "{}", compact.body);
    assert!(compact.body.contains("duplicates=1"), "{}", compact.body);
    assert!(
        compact.body.contains("src/a.rs\t10\t20\t30\t40\t50"),
        "{}",
        compact.body
    );
    // Only the first MAX_TABLE_COLUMNS columns are kept.
    assert!(
        !compact.body.contains("src/a.rs\t10\t20\t30\t40\t50\t60"),
        "{}",
        compact.body
    );
}

#[test]
fn diff_summary_counts_hunks_and_first_lines() {
    let raw = "diff --git a/x b/x\n--- a/x\n+++ b/x\n@@ -1,2 +1,2 @@\n-a\n+b\n c\n\
               @@ -9 +9 @@\n-d\n+e\n";
    let (compact, record) =
        compress(&EvidenceKind::Diff, BackingCompleteness::Complete, raw).unwrap();
    assert!(compact.body.contains("hunks=2"), "{}", compact.body);
    assert!(compact.body.contains("added=2"), "{}", compact.body);
    assert!(compact.body.contains("removed=2"), "{}", compact.body);
    assert!(compact.body.contains("-a"), "{}", compact.body);
    assert_eq!(record.lossiness, Lossiness::Structured);
    assert_eq!(record.backing_digest, digest(raw));
}

#[test]
fn huge_single_line_is_capped_on_a_char_boundary() {
    let huge = "e".repeat(8 * 1024 * 1024 - 1);
    let (compact, record) = compress(
        &EvidenceKind::ProcessLog,
        BackingCompleteness::Complete,
        &huge,
    )
    .unwrap();
    assert!(compact.body.len() <= MAX_COMPACT_BYTES);
    assert!(
        compact.body.contains("\u{2026}[truncated]"),
        "body was not capped"
    );
    assert_eq!(record.original_bytes, huge.len() as u64);
    assert_eq!(record.compact_bytes, compact.body.len() as u64);

    let multibyte = "é".repeat(2 * 1024 * 1024);
    let (compact, _) = compress(
        &EvidenceKind::DiagnosticSet,
        BackingCompleteness::Truncated,
        &multibyte,
    )
    .unwrap();
    assert!(compact.body.len() <= MAX_COMPACT_BYTES);
    assert!(compact.body.contains('\u{e9}'));
}

#[test]
fn hostile_50mb_log_is_bounded_and_deterministic() {
    const TARGET: usize = 50 * 1024 * 1024;
    let spam = format!("spam {}\n", "x".repeat(80));
    let mut raw = String::with_capacity(TARGET + 256);
    while raw.len() < TARGET / 2 {
        raw.push_str(&spam);
    }
    raw.push_str("ERROR: explosion near the midpoint\n");
    while raw.len() < TARGET {
        raw.push_str(&spam);
    }
    raw.push_str("FATAL: final error: pipeline aborted\n");
    assert!(raw.len() >= TARGET);
    assert!(raw.len() >= 50 * 1024 * 1024);

    let (first_compact, first_record) = compress(
        &EvidenceKind::ProcessLog,
        BackingCompleteness::Complete,
        &raw,
    )
    .unwrap();
    let (second_compact, second_record) = compress(
        &EvidenceKind::ProcessLog,
        BackingCompleteness::Complete,
        &raw,
    )
    .unwrap();

    assert_eq!(first_compact, second_compact);
    assert_eq!(first_record, second_record);
    assert!(
        first_compact.body.len() <= MAX_COMPACT_BYTES,
        "compact body {} exceeds the {} byte bound",
        first_compact.body.len(),
        MAX_COMPACT_BYTES
    );
    assert!(
        first_compact.body.contains("explosion near the midpoint"),
        "midpoint failure was dropped"
    );
    assert!(
        first_compact.body.contains("final error: pipeline aborted"),
        "final error line was dropped"
    );
    assert_eq!(first_record.original_bytes, raw.len() as u64);
    assert_eq!(first_record.compact_bytes, first_compact.body.len() as u64);
    assert_eq!(first_record.lossiness, Lossiness::Content);
    assert_eq!(first_record.backing_digest, digest(&raw));
}

#[test]
fn every_kind_is_deterministic_across_runs() {
    let samples = [
        (EvidenceKind::ProcessLog, "a\na\nb\nERROR: x\nc\n"),
        (
            EvidenceKind::TestReport,
            "test a ... ok\ntest b ... FAILED\n",
        ),
        (
            EvidenceKind::DiagnosticSet,
            "src/a.rs:1:2: error: nope\nsrc/a.rs:1:2: error: nope\n",
        ),
        (
            EvidenceKind::SearchResults,
            "src/a.rs:10:hit\nsrc/a.rs:10:hit\n",
        ),
        (EvidenceKind::FileMap, "src/a.rs 120\nsrc/a.rs 120\n"),
        (EvidenceKind::SymbolSet, "fn a src/a.rs:3\n"),
        (EvidenceKind::StructuredRows, "a 1 2\n"),
        (EvidenceKind::Diff, "@@ -1 +1 @@\n-old\n+new\n"),
        (EvidenceKind::ChildHandoff, "handoff\nbody\n"),
        (EvidenceKind::SemanticContext, "chunk\nbody\n"),
        (EvidenceKind::GenericText, "just text\n"),
    ];
    for (kind, raw) in samples {
        let first = compress(&kind, BackingCompleteness::Complete, raw).unwrap();
        let second = compress(&kind, BackingCompleteness::Complete, raw).unwrap();
        assert_eq!(first, second, "{kind:?} must be byte-deterministic");
        assert!(first.0.body.len() <= MAX_COMPACT_BYTES, "{kind:?}");
        assert!(first.0.grammar.ends_with("-v1"), "{kind:?}");
        assert_eq!(first.1.compact_bytes, first.0.body.len() as u64, "{kind:?}");
    }
}

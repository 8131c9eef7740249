//! Parsing of tool output into rows.
use faktor::normalize::{
    DiagnosticEvidence, DiagnosticSet, ProcessLogSummary, RepeatedLogGroup, SearchHit, SearchResults,
    TestFailure, TestReport, MAX_FIELD_CHARS, MAX_IMPORTANT_LINES, MAX_INPUT_LINES,
};
use faktor::types::{EvidenceError, Severity};


fn expected_fingerprint(trimmed: &str) -> u64 {
    let hash = blake3::hash(trimmed.as_bytes());
    let b = hash.as_bytes();
    u64::from_be_bytes([b[0], b[1], b[2], b[3], b[4], b[5], b[6], b[7]])
}

#[test]
fn diagnostics_parse_both_forms_and_skip_blank_rows() {
    let raw = "\n  \nsrc/main.rs:10:5: error[E0308]: mismatched types\n\
               lib.rs:3:1: warning: unused variable\n\
               build.rs:1:2: something went wrong\n\
               \t\n";
    let set = DiagnosticSet::try_from_text(raw).unwrap();
    assert!(!set.field_truncated);
    assert_eq!(
        set.diagnostics,
        vec![
            DiagnosticEvidence {
                path: "src/main.rs".to_string(),
                line: 10,
                column: 5,
                severity: Severity::Error,
                code: Some("E0308".to_string()),
                message: "mismatched types".to_string(),
            },
            DiagnosticEvidence {
                path: "lib.rs".to_string(),
                line: 3,
                column: 1,
                severity: Severity::Warning,
                code: None,
                message: "unused variable".to_string(),
            },
            DiagnosticEvidence {
                path: "build.rs".to_string(),
                line: 1,
                column: 2,
                severity: Severity::Error,
                code: None,
                message: "something went wrong".to_string(),
            },
        ]
    );
}

#[test]
fn diagnostics_accept_case_insensitive_severity_and_coloned_paths() {
    let raw = "UPPER.rs:3:4: ERROR: nope\n\
               C:\\work\\src\\main.rs:7:9: info[HINT]: check this\n\
               /tmp/a:b:c.rs:2:4: WARNING: odd path\n";
    let set = DiagnosticSet::try_from_text(raw).unwrap();
    assert_eq!(set.diagnostics.len(), 3);
    assert_eq!(set.diagnostics[0].path, "UPPER.rs");
    assert_eq!(set.diagnostics[0].severity, Severity::Error);
    assert_eq!(set.diagnostics[0].message, "nope");
    assert_eq!(set.diagnostics[1].path, r"C:\work\src\main.rs");
    assert_eq!(set.diagnostics[1].severity, Severity::Info);
    assert_eq!(set.diagnostics[1].code.as_deref(), Some("HINT"));
    assert_eq!(set.diagnostics[2].path, "/tmp/a:b:c.rs");
    assert_eq!(set.diagnostics[2].severity, Severity::Warning);
}

#[test]
fn diagnostics_malformed_row_fails_whole_input_typed() {
    let hostile = [
        "just some text without a location",
        "src/main.rs:x:5: error: bad line number",
        "src/main.rs:1:y: error: bad column",
        "src/main.rs:4294967296:5: error: line overflow",
        "src/main.rs:1:4294967296: error: column overflow",
        "src/main.rs:1:2:",
        "src/main.rs:1:2:   ",
        "src/main.rs:1:2: error:",
        ":1:2: error: no path",
        "src/main.rs:1: error: missing column",
    ];
    for raw in hostile {
        let err = DiagnosticSet::try_from_text(raw).unwrap_err();
        assert!(
            matches!(err, EvidenceError::Malformed(_)),
            "{raw:?} must be a typed Malformed error, got {err:?}"
        );
    }
    // A single bad row poisons the whole input, even after a good row.
    let err =
        DiagnosticSet::try_from_text("a.rs:1:1: error: fine\nthis row is junk").unwrap_err();
    assert!(matches!(err, EvidenceError::Malformed(_)), "{err:?}");
    assert!(err.to_string().contains("line 2"), "{err:?}");
}

#[test]
fn diagnostics_field_cap_sets_flag_never_silently() {
    let exact_message = "m".repeat(MAX_FIELD_CHARS);
    let raw = format!("a.rs:1:1: error: {exact_message}");
    let set = DiagnosticSet::try_from_text(&raw).unwrap();
    assert!(!set.field_truncated);
    assert_eq!(set.diagnostics[0].message.chars().count(), MAX_FIELD_CHARS);

    let long_path = "p".repeat(MAX_FIELD_CHARS + 100);
    let long_message = "m".repeat(MAX_FIELD_CHARS * 2);
    let long_code = "c".repeat(MAX_FIELD_CHARS + 1);
    let raw = format!("{long_path}:7:9: warning[{long_code}]: {long_message}");
    let set = DiagnosticSet::try_from_text(&raw).unwrap();
    assert!(set.field_truncated);
    let diagnostic = &set.diagnostics[0];
    assert_eq!(diagnostic.path.chars().count(), MAX_FIELD_CHARS);
    assert_eq!(diagnostic.message.chars().count(), MAX_FIELD_CHARS);
    assert_eq!(
        diagnostic
            .code
            .as_deref()
            .map(str::chars)
            .map(Iterator::count),
        Some(MAX_FIELD_CHARS)
    );
    assert_eq!(diagnostic.line, 7);
    assert_eq!(diagnostic.column, 9);

    // Cap counts chars, not bytes.
    let emoji = "\u{1F4A5}".repeat(MAX_FIELD_CHARS + 10);
    let set = DiagnosticSet::try_from_text(&format!("a.rs:1:1: error: {emoji}")).unwrap();
    assert!(set.field_truncated);
    assert_eq!(set.diagnostics[0].message.chars().count(), MAX_FIELD_CHARS);
}

#[test]
fn test_report_parses_summary_and_failures() {
    let raw = "total=4 passed=2 skipped=1 duration_ms=1234\n\
               FAIL tests::a: assertion failed\n\
               fail tests::b: fell over\n";
    let report = TestReport::try_from_text(raw).unwrap();
    assert!(!report.field_truncated);
    assert_eq!(report.total, 4);
    assert_eq!(report.passed, 2);
    assert_eq!(report.skipped, 1);
    assert_eq!(report.duration_ms, 1234);
    assert_eq!(
        report.failed,
        vec![
            TestFailure {
                name: "tests::a".to_string(),
                message: "assertion failed".to_string(),
            },
            TestFailure {
                name: "tests::b".to_string(),
                message: "fell over".to_string(),
            },
        ]
    );

    // total is derived when absent; the last explicit key wins.
    let derived = TestReport::try_from_text("passed=3 skipped=1\nFAIL x: y\n").unwrap();
    assert_eq!((derived.total, derived.passed, derived.skipped), (5, 3, 1));
    let last_wins = TestReport::try_from_text("total=1 total=2,passed=2").unwrap();
    assert_eq!((last_wins.total, last_wins.passed), (2, 2));

    // Unrecognized rows are ignored; a broken recognized value is typed.
    let noisy = TestReport::try_from_text("noise\nmore noise=ignored\npassed=1").unwrap();
    assert_eq!(noisy.passed, 1);
    for bad in [
        "total=many",
        "passed=-1",
        "skipped=1.5",
        "duration_ms=99999999999999999999",
    ] {
        let err = TestReport::try_from_text(bad).unwrap_err();
        assert!(
            matches!(err, EvidenceError::Malformed(_)),
            "{bad:?} must be Malformed, got {err:?}"
        );
    }
}

#[test]
fn test_report_field_cap_sets_flag() {
    let raw = format!(
        "FAIL {}: {}",
        "n".repeat(MAX_FIELD_CHARS + 7),
        "m".repeat(MAX_FIELD_CHARS + 7)
    );
    let report = TestReport::try_from_text(&raw).unwrap();
    assert!(report.field_truncated);
    assert_eq!(report.failed[0].name.chars().count(), MAX_FIELD_CHARS);
    assert_eq!(report.failed[0].message.chars().count(), MAX_FIELD_CHARS);
}

#[test]
fn search_results_parse_hits_strictly() {
    let raw = "src/lib.rs:42:fn main() {}\n\
               C:\\repo\\a.rs:7:let x = 1;\n\
               /tmp/a:b.rs:1:\n";
    let results = SearchResults::try_from_text(raw).unwrap();
    assert!(!results.field_truncated);
    assert_eq!(
        results.hits,
        vec![
            SearchHit {
                path: "src/lib.rs".to_string(),
                line: 42,
                text: "fn main() {}".to_string(),
            },
            SearchHit {
                path: r"C:\repo\a.rs".to_string(),
                line: 7,
                text: "let x = 1;".to_string(),
            },
            SearchHit {
                path: "/tmp/a:b.rs".to_string(),
                line: 1,
                text: String::new(),
            },
        ]
    );

    for bad in [
        "no colon at all",
        "file.rs:abc:text",
        "file.rs:4294967296:text",
        "file.rs::text",
        ":1:text",
        "file.rs:1 text",
    ] {
        let err = SearchResults::try_from_text(bad).unwrap_err();
        assert!(
            matches!(err, EvidenceError::Malformed(_)),
            "{bad:?} must be Malformed, got {err:?}"
        );
    }
}

#[test]
fn search_field_cap_sets_flag() {
    let raw = format!(
        "{}:1:{}",
        "p".repeat(MAX_FIELD_CHARS + 1),
        "t".repeat(MAX_FIELD_CHARS + 1)
    );
    let results = SearchResults::try_from_text(&raw).unwrap();
    assert!(results.field_truncated);
    assert_eq!(results.hits[0].path.chars().count(), MAX_FIELD_CHARS);
    assert_eq!(results.hits[0].text.chars().count(), MAX_FIELD_CHARS);
}

#[test]
fn process_log_collapses_runs_with_golden_fingerprints() {
    let raw = "boot\nspam\n  spam  \nSPAM\nstart\nstart\nend";
    let summary = ProcessLogSummary::try_from_text(raw).unwrap();
    assert!(!summary.field_truncated);
    assert_eq!(summary.exit, None);
    assert_eq!(
        summary.repeated_groups,
        vec![
            RepeatedLogGroup {
                fingerprint: 5_434_107_346_319_650_050,
                count: 2,
                sample: "spam".to_string(),
            },
            RepeatedLogGroup {
                fingerprint: 9_435_337_193_356_032_396,
                count: 2,
                sample: "start".to_string(),
            },
        ]
    );
    // Trimming happens before hashing: whitespace variants collapse into
    // one group with a stable fingerprint, and parsing is deterministic.
    let spaced = ProcessLogSummary::try_from_text("spam\n  spam  ").unwrap();
    assert_eq!(spaced.repeated_groups.len(), 1);
    assert_eq!(
        spaced.repeated_groups[0].fingerprint,
        expected_fingerprint("spam")
    );
    assert_eq!(summary, ProcessLogSummary::try_from_text(raw).unwrap());

    // Non-consecutive duplicates are separate runs, never groups.
    let scattered = ProcessLogSummary::try_from_text("a\nb\na").unwrap();
    assert!(scattered.repeated_groups.is_empty());
}

#[test]
fn process_log_important_lines_prioritize_keywords_and_keep_final() {
    let mut raw = String::new();
    for index in 0..260 {
        raw.push_str(&format!("error number {index}\n"));
    }
    for index in 260..300 {
        raw.push_str(&format!("noise {index}\n"));
    }
    raw.push_str("done\n");
    let summary = ProcessLogSummary::try_from_text(&raw).unwrap();
    assert_eq!(summary.important_lines.len(), MAX_IMPORTANT_LINES);
    assert_eq!(
        summary.important_lines.last().unwrap().text,
        "done".to_string()
    );
    assert!(summary.important_lines[..MAX_IMPORTANT_LINES - 1]
        .iter()
        .all(|event| event.text.starts_with("error number")));

    // A final keyword line is kept exactly once, and the final row is
    // retained even when nothing matches.
    let small = ProcessLogSummary::try_from_text("error a\nerror b").unwrap();
    assert_eq!(small.important_lines.len(), 2);
    assert_eq!(small.important_lines[1].text, "error b");
    let quiet = ProcessLogSummary::try_from_text("nothing to see\nlast").unwrap();
    assert_eq!(quiet.important_lines.len(), 1);
    assert_eq!(quiet.important_lines[0].text, "last");
}

#[test]
fn process_log_exit_code_parsing_is_typed_and_first_wins() {
    let cases = [
        ("exit code: 1", Some(1)),
        ("Exit Status = -1", Some(-1)),
        ("exit_code=4", Some(4)),
        ("exit: 2", Some(2)),
        ("exit 7", Some(7)),
        ("process exited with code 3", Some(3)),
        ("exited with status 5.", Some(5)),
        ("no exit information", None),
        ("exit code: not-a-number", None),
        ("myexit code: 3", None),
    ];
    for (raw, expected) in cases {
        assert_eq!(
            ProcessLogSummary::try_from_text(raw).unwrap().exit,
            expected,
            "{raw:?}"
        );
    }
    let first_wins = ProcessLogSummary::try_from_text("exit: 2\nexit: 9").unwrap();
    assert_eq!(first_wins.exit, Some(2));
}

#[test]
fn process_log_field_cap_sets_flag_on_samples_and_events() {
    let long = "e".repeat(MAX_FIELD_CHARS + 10);
    let summary = ProcessLogSummary::try_from_text(&format!("{long}\n{long}\n")).unwrap();
    assert!(summary.field_truncated);
    assert_eq!(
        summary.repeated_groups[0].sample.chars().count(),
        MAX_FIELD_CHARS
    );
    assert_eq!(
        summary.important_lines[0].text.chars().count(),
        MAX_FIELD_CHARS
    );
}

#[test]
fn oversized_inputs_are_typed_for_every_normalizer() {
    let oversized = "x\n".repeat(MAX_INPUT_LINES + 1);
    let results = [
        DiagnosticSet::try_from_text(&oversized).map(|_| ()),
        TestReport::try_from_text(&oversized).map(|_| ()),
        SearchResults::try_from_text(&oversized).map(|_| ()),
        ProcessLogSummary::try_from_text(&oversized).map(|_| ()),
    ];
    for result in results {
        match result {
            Err(EvidenceError::Oversized { max, actual }) => {
                assert_eq!(max, MAX_INPUT_LINES);
                assert_eq!(actual, MAX_INPUT_LINES + 1);
            }
            other => panic!("expected Oversized, got {other:?}"),
        }
    }
    // Exactly at the cap is still admissible.
    let at_cap = "\n".repeat(MAX_INPUT_LINES);
    let set = DiagnosticSet::try_from_text(&at_cap).unwrap();
    assert!(set.diagnostics.is_empty());
    assert!(!set.field_truncated);
}

#[test]
fn empty_and_blank_inputs_yield_empty_values() {
    for raw in ["", " ", "\n", "\r\n", "\t\n  \n"] {
        let set = DiagnosticSet::try_from_text(raw).unwrap();
        assert!(set.diagnostics.is_empty(), "{raw:?}");
        assert!(!set.field_truncated, "{raw:?}");

        let report = TestReport::try_from_text(raw).unwrap();
        assert_eq!(
            report,
            TestReport {
                total: 0,
                passed: 0,
                failed: Vec::new(),
                skipped: 0,
                duration_ms: 0,
                field_truncated: false,
            },
            "{raw:?}"
        );

        let results = SearchResults::try_from_text(raw).unwrap();
        assert!(results.hits.is_empty(), "{raw:?}");

        let summary = ProcessLogSummary::try_from_text(raw).unwrap();
        assert_eq!(summary.exit, None, "{raw:?}");
        assert!(summary.important_lines.is_empty(), "{raw:?}");
        assert!(summary.repeated_groups.is_empty(), "{raw:?}");
        assert!(!summary.field_truncated, "{raw:?}");
    }
}

#[test]
fn normalize_junk_never_panics() {
    let junk = [
        "\u{0}\u{1}\u{7f}",
        "\u{1F4A5}\u{1F4A5}\u{1F4A5}",
        "a:b:c",
        "::::",
        "path:1:2: error: ",
        "= = =",
        "----",
        "exit code: not-a-number",
        "path:4294967295:4294967295: info[x]: ok",
        "line with trailing colon:",
    ];
    for raw in junk {
        let _ = DiagnosticSet::try_from_text(raw);
        let _ = TestReport::try_from_text(raw);
        let _ = SearchResults::try_from_text(raw);
        let _ = ProcessLogSummary::try_from_text(raw);
    }
    let huge_line = "x".repeat(200_000);
    let _ = DiagnosticSet::try_from_text(&huge_line);
    let _ = TestReport::try_from_text(&huge_line);
    let _ = SearchResults::try_from_text(&huge_line);
    let _ = ProcessLogSummary::try_from_text(&huge_line);
}

#[test]
fn a_number_that_does_not_fit_is_no_location() {
    // The first location decides: its numbers are not passed over for later ones.
    for raw in ["a.rs:4294967296:5:6: m", "a.rs:5:4294967296: m"] {
        let err = DiagnosticSet::try_from_text(raw).unwrap_err();
        assert!(matches!(err, EvidenceError::Malformed(_)), "{raw}: {err:?}");
    }
    let set = DiagnosticSet::try_from_text("a.rs:4294967295:6: error: m").unwrap();
    assert_eq!(set.diagnostics[0].line, 4294967295);
    for raw in ["a.rs:4294967296:hit", "a.rs:4294967296:5:hit"] {
        let err = SearchResults::try_from_text(raw).unwrap_err();
        assert!(matches!(err, EvidenceError::Malformed(_)), "{raw}: {err:?}");
    }
}

#[test]
fn a_code_may_hold_colons() {
    let raw = "a.rs:1:2: warning[clippy::all]: m: n\n\
               a.rs:1:2: ERROR[a: b]:x\n\
               a.rs:1:2: note[a::b]: m\n\
               a.rs:1:2: error[a]b]: m\n\
               a.rs:1:2: info[]: m";
    let set = DiagnosticSet::try_from_text(raw).unwrap();
    let read: Vec<_> = set
        .diagnostics
        .iter()
        .map(|d| (d.severity, d.code.as_deref(), d.message.as_str()))
        .collect();
    assert_eq!(
        read,
        vec![
            (Severity::Warning, Some("clippy::all"), "m: n"),
            (Severity::Error, Some("a: b"), "x"),
            (Severity::Error, None, "note[a::b]: m"),
            (Severity::Error, Some("a]b"), "m"),
            (Severity::Info, None, "m"),
        ]
    );
}

//! The compact grammars, and reading them back.
use faktor::render::{
    escape_field, parse_diagnostics, render_diagnostics, render_log, render_search, render_tests,
    unescape_field, DiagnosticRow, DIAG_GRAMMAR, LOG_GRAMMAR, SEARCH_GRAMMAR, TESTS_GRAMMAR,
};
use faktor::types::EvidenceError;


fn diag(
    path: &str,
    line: u32,
    column: u32,
    severity: &str,
    code: Option<&str>,
    message: &str,
) -> DiagnosticRow {
    DiagnosticRow {
        path: path.to_string(),
        line,
        column,
        severity: severity.to_string(),
        code: code.map(str::to_string),
        message: message.to_string(),
    }
}

fn has_unescaped_pipe(s: &str) -> bool {
    let mut chars = s.chars();
    while let Some(c) = chars.next() {
        match c {
            '\\' => {
                let _ = chars.next();
            }
            '|' => return true,
            _ => {}
        }
    }
    false
}

#[test]
fn escape_unescape_round_trips_hostile_payloads() {
    let hostile = [
        "",
        "plain text",
        "|",
        "|||",
        "\\",
        "\\\\",
        "\\|",
        "\n",
        "\r",
        "\r\n",
        "line one\nline two\r\nline three",
        "a\\|b\nc\\d\re",
        "prefix|middle\\suffix\n",
        "日本語/ファイル.rs",
        "emoji 🎉 with | and \\ and \n",
        "-",
        "a-b-c",
    ];
    for raw in hostile {
        let escaped = escape_field(raw);
        assert!(!escaped.contains('\n'), "raw newline leaked for {raw:?}");
        assert!(!escaped.contains('\r'), "raw CR leaked for {raw:?}");
        assert!(
            !has_unescaped_pipe(&escaped),
            "raw pipe leaked for {raw:?} -> {escaped:?}"
        );
        assert_eq!(unescape_field(&escaped).unwrap(), raw);
    }
}

#[test]
fn unescape_field_rejects_broken_grammar() {
    for bad in [
        "\\", "abc\\", "\\x", "a\\qb", "a|b", "|", "a\\n\\", "\\\\\\",
    ] {
        match unescape_field(bad) {
            Err(EvidenceError::Malformed(message)) => assert!(!message.is_empty()),
            other => panic!("{bad:?} must be typed Malformed, got {other:?}"),
        }
    }
}

#[test]
fn diagnostics_render_parse_round_trip() {
    let rows = vec![
        diag(
            "src/main.rs",
            12,
            5,
            "error",
            Some("E0308"),
            "mismatched types",
        ),
        diag(
            "src/weird|name\\with\nnewline.rs",
            1,
            1,
            "warning",
            None,
            "first\nsecond | pipe \\ slash \r carriage",
        ),
        diag("", 0, 0, "", Some(""), ""),
        diag(
            "日本語/ファイル.rs",
            u32::MAX,
            u32::MAX,
            "hint",
            Some("clippy::all"),
            "🎉",
        ),
    ];
    let rendered = render_diagnostics(&rows);
    assert_eq!(rendered.grammar, DIAG_GRAMMAR);
    assert!(!rendered.body.ends_with('\n'));
    assert_eq!(rendered.body.lines().count(), rows.len());
    assert_eq!(parse_diagnostics(&rendered.body).unwrap(), rows);

    let empty = render_diagnostics(&[]);
    assert_eq!(empty.grammar, DIAG_GRAMMAR);
    assert_eq!(empty.body, "");
    assert_eq!(parse_diagnostics("").unwrap(), Vec::new());
}

#[test]
fn malformed_diagnostics_are_typed() {
    let bad = [
        "single-field",
        "a|1:2|error|-",
        "a|1:2|error|-|message|extra",
        "a|1:2:3|error|-|message",
        "a|:2|error|-|message",
        "a|1:|error|-|message",
        "a|1.5:2|error|-|message",
        "a|+1:2|error|-|message",
        "a| 1:2|error|-|message",
        "a|1:2 |error|-|message",
        "a|4294967296:1|error|-|message",
        "a|1:2|error|-|msg\\",
        "a|1:2|err\\q|-|msg",
        "a|1:2|error|-|m|sg",
        "a|1:2|error|-|msg\n",
        "\n",
        "||||",
    ];
    for raw in bad {
        match parse_diagnostics(raw) {
            Err(EvidenceError::Malformed(message)) => assert!(!message.is_empty()),
            other => panic!("{raw:?} must be typed Malformed, got {other:?}"),
        }
    }
}

#[test]
fn dash_code_marker_is_reserved_for_absent_code() {
    let literal_dash = vec![diag("a.rs", 1, 1, "error", Some("-"), "literal dash")];
    let parsed = parse_diagnostics(&render_diagnostics(&literal_dash).body).unwrap();
    assert_eq!(parsed[0].code, None);

    let absent = vec![diag("a.rs", 1, 1, "error", None, "no code")];
    assert_eq!(
        parse_diagnostics(&render_diagnostics(&absent).body).unwrap(),
        absent
    );
}

#[test]
fn search_render_dedupes_preserving_first_occurrence() {
    let hits = [
        ("src/a.rs".to_string(), 1u32),
        ("src/b|c.rs".to_string(), 2),
        ("src/a.rs".to_string(), 1),
        ("src/a.rs".to_string(), 3),
        ("src/b|c.rs".to_string(), 2),
    ];
    let rendered = render_search(&hits);
    assert_eq!(rendered.grammar, SEARCH_GRAMMAR);
    assert_eq!(rendered.body, "src/a.rs|1\nsrc/b\\|c.rs|2\nsrc/a.rs|3");
    assert_eq!(render_search(&[]).body, "");
}

#[test]
fn tests_and_logs_render_escaped_bodies() {
    let failed = [("case|one".to_string(), "boom\nnext".to_string())];
    let tests = render_tests(&failed, 3, 2, 0, 41);
    assert_eq!(tests.grammar, TESTS_GRAMMAR);
    assert_eq!(
        tests.body,
        "total=3 passed=2 skipped=0 failed=1 duration_ms=41\nFAIL|case\\|one|boom\\nnext"
    );

    let groups = [(1u64, 4u64, "a\nb".to_string())];
    let important = ["careful|now".to_string()];
    let log = render_log(&groups, &important, Some(2));
    assert_eq!(log.grammar, LOG_GRAMMAR);
    assert_eq!(
        log.body,
        "exit=2 groups=1 important=1\nG|1|4|a\\nb\nI|-|-|careful\\|now"
    );
    assert_eq!(
        render_log(&[], &[], None).body,
        "exit=- groups=0 important=0"
    );
}

#[test]
fn rendering_is_byte_deterministic_across_calls() {
    let rows = vec![diag("p|q", 3, 4, "error", None, "m\\n")];
    let first = render_diagnostics(&rows);
    let second = render_diagnostics(&rows);
    assert_eq!(first, second);
    assert_eq!(first.body.as_bytes(), second.body.as_bytes());

    let hits = [("p".to_string(), 1u32), ("p".to_string(), 1)];
    assert_eq!(render_search(&hits), render_search(&hits));

    let failed = [("t".to_string(), "m".to_string())];
    assert_eq!(
        render_tests(&failed, 1, 0, 0, 0),
        render_tests(&failed, 1, 0, 0, 0)
    );

    let groups = [(0u64, 1u64, "x".to_string())];
    let important = ["y".to_string()];
    assert_eq!(
        render_log(&groups, &important, None),
        render_log(&groups, &important, None)
    );
}

#[test]
fn render_junk_never_panics() {
    let junk: Vec<String> = vec![
        String::new(),
        "\0\u{1}\u{7f}".to_string(),
        "🦀|🦀\n🦀\\".to_string(),
        "\\".repeat(4097),
        "|".repeat(4097),
        "\\n\\r\\|".repeat(1000),
        format!(
            "{}|1:1|error|-|{}",
            "p".repeat(64 * 1024),
            "m".repeat(64 * 1024)
        ),
        format!("{}\\", "x".repeat(1000)),
    ];
    for raw in &junk {
        let _ = parse_diagnostics(raw);
        let _ = unescape_field(raw);
        let _ = escape_field(raw);
    }
    assert!(parse_diagnostics(&"|".repeat(10_000)).is_err());
    assert!(parse_diagnostics(&"\\".repeat(10_001)).is_err());
    let odd = "\\".repeat(10_000);
    assert_eq!(unescape_field(&odd).unwrap().len(), 5_000);
    let round = escape_field(&"\\".repeat(10_001));
    assert_eq!(unescape_field(&round).unwrap().len(), 10_001);
}

#[test]
fn a_line_break_in_a_field_is_no_escaped_text() {
    for bad in ["a\nb", "a\rb", "\n", "\r", "a\r\nb"] {
        assert!(matches!(unescape_field(bad), Err(EvidenceError::Malformed(_))), "{bad:?}");
    }
    // What unescapes is exactly what escaping gives.
    for good in ["", "a b", "a\\nb", "a\\rb", "a\\|b", "a\\\\b"] {
        assert_eq!(escape_field(&unescape_field(good).unwrap()), good);
    }
}

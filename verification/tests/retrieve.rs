//! Scoped and bounded reads of stored evidence.
use faktor::ids::{SessionId, WorkspaceId};
use faktor::retrieve::{
    policy_of, retrieve, retrieve_line_range, RetrievalSelector, RetrievedEvidence, MAX_ITEMS,
    MAX_QUERY_BYTES, MAX_SEARCH_HITS,
};
use faktor::store::{
    EvidenceAccessContext, EvidenceStore, MemoryEvidenceStore, StoredEvidence,
};
use faktor::types::{
    BackingCompleteness, CompactRepresentation, Compressibility, CompressionRecord, EvidenceEnvelope,
    EvidenceError, EvidenceId, EvidenceKind, ProvenanceSet, ProvenanceSource, RetrievalPolicy,
};

fn open(max_bytes: usize) -> RetrievalPolicy {
    RetrievalPolicy::new(true, true, max_bytes)
}

fn ctx() -> EvidenceAccessContext {
    EvidenceAccessContext::new(1, 2, Some(3))
}

fn envelope(
    id: u64,
    policy: RetrievalPolicy,
    session: u64,
    task: Option<u64>,
) -> EvidenceEnvelope {
    EvidenceEnvelope::new(
        EvidenceId(id),
        EvidenceKind::ProcessLog,
        SessionId::new(session),
        WorkspaceId::new(2),
        task,
        None,
        ProvenanceSet::new(vec![ProvenanceSource::Tool]),
        Compressibility::Aggressive,
        CompactRepresentation {
            grammar: "log-v1".to_string(),
            body: "COMPACT-BODY-MUST-NEVER-LEAK-WHOLE".to_string(),
        },
        Some([5u8; 32]),
        BackingCompleteness::Complete,
        CompressionRecord::identity(0),
        policy,
    )
    .unwrap()
}

fn store_with(id: u64, backing: &[u8], policy: RetrievalPolicy) -> MemoryEvidenceStore {
    let mut store = MemoryEvidenceStore::new(4096);
    store
        .insert(envelope(id, policy, 1, Some(3)), Some(backing.to_vec()))
        .unwrap();
    store
}

fn read(
    store: &MemoryEvidenceStore,
    id: u64,
    selector: RetrievalSelector,
) -> Result<RetrievedEvidence, EvidenceError> {
    retrieve(store, &ctx(), EvidenceId(id), selector)
}

#[test]
fn scope_isolation_denies_foreign_readers_even_knowing_the_id() {
    let store = store_with(1, b"secret", open(64));
    let foreign = EvidenceAccessContext::new(9, 2, Some(3));
    let selectors = [
        RetrievalSelector::All,
        RetrievalSelector::ByteRange { start: 0, end: 3 },
        RetrievalSelector::LineRange { start: 1, end: 1 },
        RetrievalSelector::Search {
            query: "secret".to_string(),
            max_hits: 1,
        },
        RetrievalSelector::Items {
            ids: vec![EvidenceId(1)],
        },
    ];
    for selector in selectors {
        let err = retrieve(&store, &foreign, EvidenceId(1), selector).unwrap_err();
        assert!(
            matches!(err, EvidenceError::AccessDenied(_)),
            "foreign scope must deny, got {err:?}"
        );
    }
    // The owner still reads fine.
    assert_eq!(
        read(&store, 1, RetrievalSelector::All).unwrap().bytes,
        b"secret"
    );
}

#[test]
fn unknown_id_is_typed_malformed() {
    let store = store_with(1, b"abc", open(64));
    let err = read(&store, 99, RetrievalSelector::All).unwrap_err();
    assert!(matches!(err, EvidenceError::Malformed(_)), "{err:?}");
}

#[test]
fn dropped_backing_is_refused_not_substituted_with_compact_body() {
    // Cap 2 drops the 6-byte backing but keeps the envelope.
    let mut store = MemoryEvidenceStore::new(2);
    store
        .insert(envelope(1, open(64), 1, Some(3)), Some(b"abcdef".to_vec()))
        .unwrap();
    for selector in [
        RetrievalSelector::All,
        RetrievalSelector::ByteRange { start: 0, end: 1 },
        RetrievalSelector::LineRange { start: 1, end: 1 },
        RetrievalSelector::Search {
            query: "a".to_string(),
            max_hits: 1,
        },
    ] {
        let err = retrieve(&store, &ctx(), EvidenceId(1), selector).unwrap_err();
        assert!(matches!(err, EvidenceError::Refused(_)), "{err:?}");
    }
}

#[test]
fn byte_range_exactness_including_empty_one_byte_and_end_eq_len() {
    let store = store_with(1, b"abcdef", open(64));
    let cases: &[((u64, u64), &[u8])] = &[
        ((0, 0), b""),       // empty at the front
        ((3, 3), b""),       // empty in the middle
        ((6, 6), b""),       // empty at end == len
        ((0, 1), b"a"),      // one byte
        ((2, 3), b"c"),      // interior one byte
        ((5, 6), b"f"),      // last byte
        ((0, 6), b"abcdef"), // end == len is the full backing
        ((2, 6), b"cdef"),
    ];
    for ((start, end), expected) in cases {
        let got = read(
            &store,
            1,
            RetrievalSelector::ByteRange {
                start: *start,
                end: *end,
            },
        )
        .unwrap();
        assert_eq!(&got.bytes, expected, "bytes:{start}..{end}");
        assert!(!got.truncated_by_policy);
        assert_eq!(got.selector_echo, format!("bytes:{start}..{end}"));
        assert_eq!(got.id, EvidenceId(1));
    }
    assert!(
        read(&store, 1, RetrievalSelector::ByteRange { start: 0, end: 0 })
            .unwrap()
            .is_empty()
    );
}

#[test]
fn byte_range_hostile_edges_are_typed() {
    let store = store_with(1, b"abcdef", open(3));
    // start > end.
    let err = read(&store, 1, RetrievalSelector::ByteRange { start: 2, end: 1 }).unwrap_err();
    assert!(matches!(err, EvidenceError::Malformed(_)), "{err:?}");
    // end beyond the backing (end == len is fine; len + 1 is not).
    let err = read(&store, 1, RetrievalSelector::ByteRange { start: 0, end: 7 }).unwrap_err();
    match err {
        EvidenceError::Oversized { max, actual } => assert_eq!((max, actual), (6, 7)),
        other => panic!("expected Oversized, got {other:?}"),
    }
    // start beyond the backing.
    let err = read(
        &store,
        1,
        RetrievalSelector::ByteRange {
            start: u64::MAX,
            end: u64::MAX,
        },
    )
    .unwrap_err();
    assert!(matches!(err, EvidenceError::Oversized { .. }), "{err:?}");
    // Length above the envelope's own byte budget.
    let err = read(&store, 1, RetrievalSelector::ByteRange { start: 0, end: 4 }).unwrap_err();
    match err {
        EvidenceError::Oversized { max, actual } => assert_eq!((max, actual), (3, 4)),
        other => panic!("expected Oversized, got {other:?}"),
    }
    // Ranges forbidden entirely => AccessDenied.
    let closed = store_with(2, b"abcdef", RetrievalPolicy::new(false, true, 64));
    let err = read(
        &closed,
        2,
        RetrievalSelector::ByteRange { start: 0, end: 1 },
    )
    .unwrap_err();
    assert!(matches!(err, EvidenceError::AccessDenied(_)), "{err:?}");
}

#[test]
fn line_range_is_inclusive_one_based_and_exact() {
    let store = store_with(1, b"one\ntwo\nthree\n", open(64));
    let cases: &[((u64, u64), &[u8])] = &[
        ((1, 1), b"one\n"),
        ((2, 2), b"two\n"),
        ((3, 3), b"three\n"),
        ((2, 3), b"two\nthree\n"),
        ((1, 3), b"one\ntwo\nthree\n"),
    ];
    for ((start, end), expected) in cases {
        let got = read(
            &store,
            1,
            RetrievalSelector::LineRange {
                start: *start,
                end: *end,
            },
        )
        .unwrap();
        assert_eq!(&got.bytes, expected, "lines:{start}..={end}");
        assert_eq!(got.selector_echo, format!("lines:{start}..={end}"));
    }

    // No trailing newline: the last line is still a line.
    let store2 = store_with(2, b"a\nb", open(64));
    assert_eq!(
        read(
            &store2,
            2,
            RetrievalSelector::LineRange { start: 2, end: 2 }
        )
        .unwrap()
        .bytes,
        b"b"
    );
}

#[test]
fn line_range_hostile_edges_are_typed() {
    let store = store_with(1, b"one\ntwo\nthree\n", open(64));
    for (start, end) in [(0, 1), (1, 0), (2, 1)] {
        let err = read(&store, 1, RetrievalSelector::LineRange { start, end }).unwrap_err();
        assert!(
            matches!(err, EvidenceError::Malformed(_)),
            "{start}..={end}: {err:?}"
        );
    }
    let err = read(&store, 1, RetrievalSelector::LineRange { start: 1, end: 4 }).unwrap_err();
    match err {
        EvidenceError::Oversized { max, actual } => assert_eq!((max, actual), (3, 4)),
        other => panic!("expected Oversized, got {other:?}"),
    }
    // A huge line number never allocates: typed Oversized.
    let err = read(
        &store,
        1,
        RetrievalSelector::LineRange {
            start: 1,
            end: u64::MAX,
        },
    )
    .unwrap_err();
    assert!(matches!(err, EvidenceError::Oversized { .. }), "{err:?}");
}

#[test]
fn search_returns_hit_only_slices_and_respects_max_hits() {
    let store = store_with(1, b"alpha\nbeta\ngamma\nbeta\n", open(64));
    assert_eq!(
        read(&store, 1, RetrievalSelector::LineRange { start: 1, end: 1 })
            .unwrap()
            .bytes,
        b"alpha\n"
    );

    let one = read(
        &store,
        1,
        RetrievalSelector::Search {
            query: "beta".to_string(),
            max_hits: 1,
        },
    )
    .unwrap();
    assert_eq!(one.bytes, b"beta", "hit-only slice, no context or newline");
    assert!(one.truncated_by_policy, "a second match was dropped");

    let two = read(
        &store,
        1,
        RetrievalSelector::Search {
            query: "beta".to_string(),
            max_hits: 2,
        },
    )
    .unwrap();
    assert_eq!(two.bytes, b"beta\nbeta");
    assert!(!two.truncated_by_policy);

    // No match: empty result, never a fallback to the backing.
    let none = read(
        &store,
        1,
        RetrievalSelector::Search {
            query: "zeta".to_string(),
            max_hits: 8,
        },
    )
    .unwrap();
    assert!(none.bytes.is_empty());
    assert!(!none.truncated_by_policy);
    assert_ne!(none.bytes, b"alpha\nbeta\ngamma\nbeta\n");

    // Matching is case-sensitive byte matching.
    let upper = read(
        &store,
        1,
        RetrievalSelector::Search {
            query: "BETA".to_string(),
            max_hits: 8,
        },
    )
    .unwrap();
    assert!(upper.bytes.is_empty());
}

#[test]
fn search_byte_budget_truncates_not_overshoots() {
    let store = store_with(1, b"alpha\nbeta\ngamma\nbeta\n", open(6));
    let got = read(
        &store,
        1,
        RetrievalSelector::Search {
            query: "beta".to_string(),
            max_hits: 8,
        },
    )
    .unwrap();
    // First hit fits (4 <= 6); the second would need 4 + 1 + 4 = 9.
    assert_eq!(got.bytes, b"beta");
    assert!(got.truncated_by_policy);

    // Budget zero: nothing can be returned, but the request stays bounded
    // and typed.
    let zero = store_with(2, b"beta\nbeta\n", open(0));
    let got = read(
        &zero,
        2,
        RetrievalSelector::Search {
            query: "beta".to_string(),
            max_hits: 8,
        },
    )
    .unwrap();
    assert!(got.bytes.is_empty());
    assert!(got.truncated_by_policy);
}

#[test]
fn search_hit_cap_is_hard_bounded() {
    let mut backing = Vec::new();
    for _ in 0..(MAX_SEARCH_HITS + 10) {
        backing.extend_from_slice(b"hit\n");
    }
    let store = store_with(1, &backing, open(64 * 1024));
    let got = read(
        &store,
        1,
        RetrievalSelector::Search {
            query: "hit".to_string(),
            max_hits: u32::MAX,
        },
    )
    .unwrap();
    let hits = got
        .bytes
        .windows(3)
        .filter(|window| *window == b"hit")
        .count();
    assert_eq!(hits, MAX_SEARCH_HITS as usize);
    assert!(got.truncated_by_policy);
}

#[test]
fn search_hostile_selectors_are_typed() {
    let store = store_with(1, b"alpha\n", open(64));
    let err = read(
        &store,
        1,
        RetrievalSelector::Search {
            query: String::new(),
            max_hits: 1,
        },
    )
    .unwrap_err();
    assert!(matches!(err, EvidenceError::Malformed(_)), "{err:?}");

    let err = read(
        &store,
        1,
        RetrievalSelector::Search {
            query: "a".to_string(),
            max_hits: 0,
        },
    )
    .unwrap_err();
    assert!(matches!(err, EvidenceError::Malformed(_)), "{err:?}");

    let huge = "x".repeat(MAX_QUERY_BYTES + 1);
    let err = read(
        &store,
        1,
        RetrievalSelector::Search {
            query: huge,
            max_hits: 1,
        },
    )
    .unwrap_err();
    assert!(matches!(err, EvidenceError::Oversized { .. }), "{err:?}");

    // Search forbidden => AccessDenied, even with a valid query.
    let closed = store_with(2, b"alpha\n", RetrievalPolicy::new(true, false, 64));
    let err = read(
        &closed,
        2,
        RetrievalSelector::Search {
            query: "alpha".to_string(),
            max_hits: 1,
        },
    )
    .unwrap_err();
    assert!(matches!(err, EvidenceError::AccessDenied(_)), "{err:?}");

    // Allow_search without allow_ranges is still a valid search.
    let search_only = store_with(3, b"alpha\n", RetrievalPolicy::new(false, true, 64));
    let ok = read(
        &search_only,
        3,
        RetrievalSelector::Search {
            query: "alpha".to_string(),
            max_hits: 1,
        },
    )
    .unwrap();
    assert_eq!(ok.bytes, b"alpha");
}

#[test]
fn all_is_refused_without_allow_ranges_and_bounded_by_max_bytes() {
    let closed = store_with(1, b"abcdef", RetrievalPolicy::new(false, true, 64));
    let err = read(&closed, 1, RetrievalSelector::All).unwrap_err();
    assert!(matches!(err, EvidenceError::Refused(_)), "{err:?}");
    assert!(err.to_string().contains("allow_ranges"), "{err:?}");

    let open_but_small = store_with(2, b"abcdef", open(5));
    let err = read(&open_but_small, 2, RetrievalSelector::All).unwrap_err();
    match err {
        EvidenceError::Oversized { max, actual } => assert_eq!((max, actual), (5, 6)),
        other => panic!("expected Oversized, got {other:?}"),
    }

    let exact = store_with(3, b"abcde", open(5));
    let got = read(&exact, 3, RetrievalSelector::All).unwrap();
    assert_eq!(got.bytes, b"abcde");
    assert_eq!(got.selector_echo, "all");
    assert!(!got.truncated_by_policy);
}

#[test]
fn items_concatenates_in_request_order_and_is_bounded() {
    let mut store = MemoryEvidenceStore::new(4096);
    store
        .insert(envelope(1, open(64), 1, Some(3)), Some(b"aaa".to_vec()))
        .unwrap();
    store
        .insert(envelope(2, open(64), 1, Some(3)), Some(b"bb".to_vec()))
        .unwrap();
    store
        .insert(envelope(3, open(64), 1, Some(3)), Some(b"c".to_vec()))
        .unwrap();

    let got = read(
        &store,
        1,
        RetrievalSelector::Items {
            ids: vec![EvidenceId(2), EvidenceId(1), EvidenceId(3)],
        },
    )
    .unwrap();
    assert_eq!(got.bytes, b"bbaaac", "request order is preserved");
    assert_eq!(got.selector_echo, "items:[2,1,3]");
    assert!(!got.truncated_by_policy);

    // Duplicates duplicate bytes, still bounded.
    let dup = read(
        &store,
        1,
        RetrievalSelector::Items {
            ids: vec![EvidenceId(1), EvidenceId(1)],
        },
    )
    .unwrap();
    assert_eq!(dup.bytes, b"aaaaaa");
}

#[test]
fn items_hostile_selectors_are_typed_and_never_silently_ignore_scope() {
    let mut store = MemoryEvidenceStore::new(4096);
    store
        .insert(envelope(1, open(64), 1, Some(3)), Some(b"aaa".to_vec()))
        .unwrap();
    // A foreign envelope that exists in another session.
    store
        .insert(envelope(2, open(64), 9, Some(3)), Some(b"zzz".to_vec()))
        .unwrap();

    // Empty list.
    let err = read(&store, 1, RetrievalSelector::Items { ids: vec![] }).unwrap_err();
    assert!(matches!(err, EvidenceError::Malformed(_)), "{err:?}");

    // Unknown item.
    let err = read(
        &store,
        1,
        RetrievalSelector::Items {
            ids: vec![EvidenceId(42)],
        },
    )
    .unwrap_err();
    assert!(matches!(err, EvidenceError::Malformed(_)), "{err:?}");

    // Out-of-scope item denies the whole request; it is never skipped.
    let err = read(
        &store,
        1,
        RetrievalSelector::Items {
            ids: vec![EvidenceId(1), EvidenceId(2)],
        },
    )
    .unwrap_err();
    assert!(matches!(err, EvidenceError::AccessDenied(_)), "{err:?}");

    // Too many ids.
    let err = read(
        &store,
        1,
        RetrievalSelector::Items {
            ids: vec![EvidenceId(1); MAX_ITEMS + 1],
        },
    )
    .unwrap_err();
    match err {
        EvidenceError::Oversized { max, actual } => {
            assert_eq!((max, actual), (MAX_ITEMS, MAX_ITEMS + 1));
        }
        other => panic!("expected Oversized, got {other:?}"),
    }

    // Aggregate over the governing budget => Oversized, no partial bytes.
    let mut tiny = MemoryEvidenceStore::new(4096);
    tiny.insert(envelope(1, open(5), 1, Some(3)), Some(b"aaa".to_vec()))
        .unwrap();
    tiny.insert(envelope(2, open(5), 1, Some(3)), Some(b"bbb".to_vec()))
        .unwrap();
    let err = read(
        &tiny,
        1,
        RetrievalSelector::Items {
            ids: vec![EvidenceId(1), EvidenceId(2)],
        },
    )
    .unwrap_err();
    match err {
        EvidenceError::Oversized { max, actual } => assert_eq!((max, actual), (5, 6)),
        other => panic!("expected Oversized, got {other:?}"),
    }

    // An item whose backing was dropped is refused.
    let mut dropped = MemoryEvidenceStore::new(1);
    dropped
        .insert(envelope(1, open(64), 1, Some(3)), Some(b"aaa".to_vec()))
        .unwrap();
    let err = read(
        &dropped,
        1,
        RetrievalSelector::Items {
            ids: vec![EvidenceId(1)],
        },
    )
    .unwrap_err();
    assert!(matches!(err, EvidenceError::Refused(_)), "{err:?}");
}

#[test]
fn policy_of_exposes_the_envelope_policy() {
    let store = store_with(1, b"abc", open(9));
    let stored = store.get(EvidenceId(1)).unwrap();
    assert_eq!(policy_of(&stored), open(9));
}

#[test]
fn a_line_range_splits_into_the_ranges_of_its_parts() {
    let backing = b"one\n\ntwo\nthree";
    let store = store_with(1, backing, open(64));
    let lines = |start, end| {
        read(&store, 1, RetrievalSelector::LineRange { start, end }).unwrap().bytes
    };
    assert_eq!(lines(1, 4), backing);
    for start in 1..=4 {
        for end in start + 1..=4 {
            for middle in start..end {
                let mut joined = lines(start, middle);
                joined.extend(lines(middle + 1, end));
                assert_eq!(joined, lines(start, end), "{start}..={middle}..={end}");
            }
        }
    }
}

#[test]
fn evidence_is_read_through_any_store() {
    let store = store_with(1, b"abcdef", open(64));
    let any: &dyn EvidenceStore = &store;
    let selector = RetrievalSelector::ByteRange { start: 1, end: 3 };
    assert_eq!(retrieve(any, &ctx(), EvidenceId(1), selector).unwrap().bytes, b"bc");
    assert!(any.holds(EvidenceId(1)).unwrap());
    assert!(!any.holds(EvidenceId(2)).unwrap());
}

/// A store that says only how an id is looked up. Reading id 5 fails.
struct Shelf(Vec<StoredEvidence>);

impl EvidenceStore for Shelf {
    fn insert(
        &mut self,
        env: EvidenceEnvelope,
        backing: Option<Vec<u8>>,
    ) -> Result<(), EvidenceError> {
        self.0.push(StoredEvidence { envelope: env, backing });
        Ok(())
    }

    fn get(&self, id: EvidenceId) -> Option<StoredEvidence> {
        if id == EvidenceId(5) {
            return None;
        }
        self.0.iter().find(|s| s.envelope.id == id).cloned()
    }
}

#[test]
fn a_store_need_not_repeat_the_scope_rule() {
    let mut shelf = Shelf(Vec::new());
    shelf.insert(envelope(1, open(64), 1, Some(3)), Some(b"mine".to_vec())).unwrap();
    shelf.insert(envelope(2, open(64), 9, Some(3)), Some(b"theirs".to_vec())).unwrap();
    shelf.insert(envelope(5, open(64), 1, Some(3)), Some(b"broken".to_vec())).unwrap();
    let get = |id: u64| shelf.get_scoped(EvidenceId(id), &ctx());
    assert_eq!(get(1).unwrap().backing.as_deref(), Some(&b"mine"[..]));
    assert!(matches!(get(2), Err(EvidenceError::AccessDenied(_))));
    let unknown = |id: u64| Err(EvidenceError::Malformed(format!("unknown evidence id {id}")));
    assert_eq!(get(4), unknown(4));
    assert_eq!(get(5), unknown(5));
    let read = |id: u64, selector| retrieve(&shelf, &ctx(), EvidenceId(id), selector);
    assert_eq!(read(1, RetrievalSelector::All).unwrap().bytes, b"mine");
    assert!(matches!(read(2, RetrievalSelector::All), Err(EvidenceError::AccessDenied(_))));
    let items = |ids: &[u64]| RetrievalSelector::Items {
        ids: ids.iter().map(|n| EvidenceId(*n)).collect(),
    };
    assert_eq!(
        read(1, items(&[1, 5])).unwrap_err(),
        EvidenceError::Malformed("unknown evidence id 5".to_string())
    );
    assert!(shelf.holds(EvidenceId(2)).unwrap());
}

#[test]
fn lines_of_one_reading_split_at_any_line() {
    let stored = store_with(1, b"a\nbb\nccc", open(64)).get(EvidenceId(1)).unwrap();
    let lines = |start, end| retrieve_line_range(EvidenceId(1), &stored, start, end).unwrap();
    assert_eq!(lines(1, 3).bytes, b"a\nbb\nccc");
    assert_eq!([lines(1, 1).bytes, lines(2, 3).bytes].concat(), lines(1, 3).bytes);
    assert_eq!([lines(1, 2).bytes, lines(3, 3).bytes].concat(), lines(1, 3).bytes);
    assert_eq!(lines(2, 2).selector_echo, "lines:2..=2");
    assert!(retrieve_line_range(EvidenceId(1), &stored, 0, 1).is_err());
}

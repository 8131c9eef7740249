//! The memory store, and the scope of its readers.
use faktor::ids::{SessionId, TaskId, WorkspaceId};
use faktor::store::{EvidenceAccessContext, EvidencePage, EvidenceStore, MemoryEvidenceStore};
use faktor::types::{
    BackingCompleteness, CompactRepresentation, Compressibility, CompressionRecord, EvidenceEnvelope,
    EvidenceError, EvidenceId, EvidenceKind, ProvenanceSet, ProvenanceSource, RetrievalPolicy,
};

fn envelope(
    id: u64,
    session: u64,
    workspace: u64,
    task: Option<u64>,
    compressibility: Compressibility,
    completeness: BackingCompleteness,
) -> EvidenceEnvelope {
    let backing_hash = matches!(
        compressibility,
        Compressibility::Reversible | Compressibility::Aggressive
    )
    .then_some([3u8; 32]);
    EvidenceEnvelope::new(
        EvidenceId(id),
        EvidenceKind::ProcessLog,
        SessionId::new(session),
        WorkspaceId::new(workspace),
        task,
        None,
        ProvenanceSet::new(vec![ProvenanceSource::Tool]),
        compressibility,
        CompactRepresentation {
            grammar: "log-v1".to_string(),
            body: "bounded compact body".to_string(),
        },
        backing_hash,
        completeness,
        CompressionRecord::identity(17),
        RetrievalPolicy::new(true, true, 64),
    )
    .unwrap()
}

#[test]
fn scope_is_checked_even_when_the_id_is_known() {
    let mut store = MemoryEvidenceStore::new(1024);
    store
        .insert(
            envelope(
                7,
                1,
                2,
                Some(3),
                Compressibility::Aggressive,
                BackingCompleteness::Complete,
            ),
            Some(vec![1, 2, 3]),
        )
        .unwrap();

    let owner = EvidenceAccessContext::new(1, 2, Some(3));
    assert_eq!(
        store
            .get_scoped(EvidenceId(7), &owner)
            .unwrap()
            .backing_len(),
        Some(3)
    );

    // Same session, different workspace: denied despite knowing id 7.
    let err = store
        .get_scoped(EvidenceId(7), &EvidenceAccessContext::new(1, 9, Some(3)))
        .unwrap_err();
    assert!(matches!(err, EvidenceError::AccessDenied(_)), "{err:?}");

    // Same session+workspace, different task: denied.
    let err = store
        .get_scoped(EvidenceId(7), &EvidenceAccessContext::new(1, 2, Some(4)))
        .unwrap_err();
    assert!(matches!(err, EvidenceError::AccessDenied(_)), "{err:?}");

    // Different session: denied.
    let err = store
        .get_scoped(EvidenceId(7), &EvidenceAccessContext::new(8, 2, Some(3)))
        .unwrap_err();
    assert!(matches!(err, EvidenceError::AccessDenied(_)), "{err:?}");

    // Task is only compared when both sides name one: a task-less reader
    // sees the tasked envelope.
    let taskless = EvidenceAccessContext::new(1, 2, None);
    assert!(store.get_scoped(EvidenceId(7), &taskless).is_ok());

    // A task-scoped reader sees task-less evidence.
    store
        .insert(
            envelope(
                8,
                1,
                2,
                None,
                Compressibility::Aggressive,
                BackingCompleteness::Complete,
            ),
            None,
        )
        .unwrap();
    assert!(store.get_scoped(EvidenceId(8), &owner).is_ok());

    // `get` is raw and unscoped; unknown ids are None, not an error.
    assert!(store.get(EvidenceId(7)).is_some());
    assert!(store.get(EvidenceId(999)).is_none());
    assert_eq!(store.len(), 2);
    assert!(!store.is_empty());
    assert!(store.contains(EvidenceId(8)));
}

#[test]
fn unknown_scoped_id_is_malformed_not_a_denial() {
    let store = MemoryEvidenceStore::new(8);
    let err = store
        .get_scoped(EvidenceId(1), &EvidenceAccessContext::new(1, 2, None))
        .unwrap_err();
    assert!(matches!(err, EvidenceError::Malformed(_)), "{err:?}");
    assert!(err.to_string().contains('1'), "{err:?}");
}

#[test]
fn backing_cap_keeps_envelope_and_drops_oversized_bytes() {
    let mut store = MemoryEvidenceStore::new(4);

    // Exactly at the cap is retained.
    store
        .insert(
            envelope(
                1,
                1,
                2,
                None,
                Compressibility::Aggressive,
                BackingCompleteness::Complete,
            ),
            Some(vec![0u8; 4]),
        )
        .unwrap();
    assert_eq!(
        store.get(EvidenceId(1)).unwrap().backing.as_deref(),
        Some(&[0u8; 4][..])
    );

    // Over the cap: envelope kept, bytes dropped, hash still recorded.
    let env = envelope(
        2,
        1,
        2,
        None,
        Compressibility::Reversible,
        BackingCompleteness::Complete,
    );
    assert!(env.backing_hash.is_some());
    store.insert(env, Some(vec![0u8; 5])).unwrap();
    let stored = store.get(EvidenceId(2)).unwrap();
    assert!(
        stored.backing.is_none(),
        "oversized backing must be dropped"
    );
    assert!(stored.envelope.backing_hash.is_some(), "hash must survive");
    assert_eq!(stored.envelope.id, EvidenceId(2));

    // Never/LosslessOnly evidence never retains bytes.
    store
        .insert(
            envelope(
                3,
                1,
                2,
                None,
                Compressibility::LosslessOnly,
                BackingCompleteness::Complete,
            ),
            Some(vec![1]),
        )
        .unwrap();
    assert!(store.get(EvidenceId(3)).unwrap().backing.is_none());
    store
        .insert(
            envelope(
                4,
                1,
                2,
                None,
                Compressibility::Never,
                BackingCompleteness::Complete,
            ),
            Some(vec![1]),
        )
        .unwrap();
    assert!(store.get(EvidenceId(4)).unwrap().backing.is_none());

    // Truncated capture never retains bytes even when aggressive + small.
    store
        .insert(
            envelope(
                5,
                1,
                2,
                None,
                Compressibility::Aggressive,
                BackingCompleteness::Truncated,
            ),
            Some(vec![1]),
        )
        .unwrap();
    assert!(store.get(EvidenceId(5)).unwrap().backing.is_none());

    // No backing provided stays None.
    store
        .insert(
            envelope(
                6,
                1,
                2,
                None,
                Compressibility::Aggressive,
                BackingCompleteness::Complete,
            ),
            None,
        )
        .unwrap();
    assert!(store.get(EvidenceId(6)).unwrap().backing.is_none());

    // Cap zero retains only the empty backing (0 bytes fit by definition).
    let mut zero = MemoryEvidenceStore::new(0);
    zero.insert(
        envelope(
            1,
            1,
            2,
            None,
            Compressibility::Aggressive,
            BackingCompleteness::Complete,
        ),
        Some(vec![1]),
    )
    .unwrap();
    assert!(zero.get(EvidenceId(1)).unwrap().backing.is_none());
    zero.insert(
        envelope(
            2,
            1,
            2,
            None,
            Compressibility::Aggressive,
            BackingCompleteness::Complete,
        ),
        Some(Vec::new()),
    )
    .unwrap();
    assert_eq!(
        zero.get(EvidenceId(2)).unwrap().backing.as_deref(),
        Some(&[][..])
    );
    assert_eq!(zero.backing_cap(), 0);
}

#[test]
fn duplicate_insert_is_refused_never_a_silent_overwrite() {
    let mut store = MemoryEvidenceStore::new(16);
    store
        .insert(
            envelope(
                1,
                1,
                2,
                None,
                Compressibility::Aggressive,
                BackingCompleteness::Complete,
            ),
            Some(b"first".to_vec()),
        )
        .unwrap();
    let err = store
        .insert(
            envelope(
                1,
                1,
                2,
                None,
                Compressibility::Aggressive,
                BackingCompleteness::Complete,
            ),
            Some(b"second".to_vec()),
        )
        .unwrap_err();
    assert!(matches!(err, EvidenceError::Refused(_)), "{err:?}");
    assert_eq!(
        store.get(EvidenceId(1)).unwrap().backing.as_deref(),
        Some(&b"first"[..]),
        "the original bytes must survive a duplicate insert"
    );
    assert_eq!(store.len(), 1);
}

#[test]
fn task_scope_a_b_and_explicit_admin_are_distinct() {
    let mut store = MemoryEvidenceStore::new(64);
    store
        .insert(
            envelope(
                1,
                1,
                9,
                Some(1),
                Compressibility::Aggressive,
                BackingCompleteness::Complete,
            ),
            None,
        )
        .unwrap();
    store
        .insert(
            envelope(
                2,
                1,
                9,
                Some(2),
                Compressibility::Aggressive,
                BackingCompleteness::Complete,
            ),
            None,
        )
        .unwrap();
    store
        .insert(
            envelope(
                3,
                1,
                9,
                None,
                Compressibility::Aggressive,
                BackingCompleteness::Complete,
            ),
            None,
        )
        .unwrap();

    let task_a = EvidenceAccessContext::for_task(1, 9, TaskId::new(1));
    let task_b = EvidenceAccessContext::for_task(1, 9, TaskId::new(2));
    let admin = EvidenceAccessContext::admin(1, 9);
    let visible = |ctx: &EvidenceAccessContext| -> Vec<u64> {
        store
            .list_scoped_newest(ctx, None, 16)
            .rows
            .iter()
            .map(|env| env.id.0)
            .collect()
    };
    // Newest-first insertion order; each task sees its own + shared.
    assert_eq!(visible(&task_a), vec![3, 1]);
    assert_eq!(visible(&task_b), vec![3, 2]);
    assert_eq!(visible(&admin), vec![3, 2, 1]);
    // Knowing task B's id is not authorization for task A; the explicit
    // admin scope is the only cross-task reader.
    assert!(matches!(
        store.get_scoped(EvidenceId(2), &task_a),
        Err(EvidenceError::AccessDenied(_))
    ));
    assert!(store.get_scoped(EvidenceId(2), &admin).is_ok());
    // The constructor from an optional task maps Some -> Task, None -> admin;
    // no decision anywhere is derived from an absent task id.
    assert_eq!(EvidenceAccessContext::new(1, 9, Some(1)), task_a);
    assert_eq!(EvidenceAccessContext::new(1, 9, None), admin);
}

#[test]
fn newest_pages_are_ordered_and_cursor_bounded() {
    let mut store = MemoryEvidenceStore::new(64);
    for id in 1..=10u64 {
        store
            .insert(
                envelope(
                    id,
                    1,
                    2,
                    None,
                    Compressibility::Aggressive,
                    BackingCompleteness::Complete,
                ),
                None,
            )
            .unwrap();
    }
    let ctx = EvidenceAccessContext::admin(1, 2);
    let ids =
        |page: &EvidencePage| -> Vec<u64> { page.rows.iter().map(|env| env.id.0).collect() };
    let first = store.list_scoped_newest(&ctx, None, 4);
    assert_eq!(ids(&first), vec![10, 9, 8, 7]);
    assert_eq!(first.next_before, Some(7));
    let second = store.list_scoped_newest(&ctx, first.next_before, 4);
    assert_eq!(ids(&second), vec![6, 5, 4, 3]);
    let third = store.list_scoped_newest(&ctx, second.next_before, 4);
    assert_eq!(ids(&third), vec![2, 1]);
    assert_eq!(third.next_before, Some(1));
    let exhausted = store.list_scoped_newest(&ctx, third.next_before, 4);
    assert!(exhausted.rows.is_empty());
    assert_eq!(exhausted.next_before, None);
    assert!(ids(&store.list_scoped_newest(&ctx, None, 0)).is_empty());
}

//! Durable evidence: what is written, what reads back, and for whom. The table
//! and the blobs are kept in memory here.
use faktor::digest::{digest_bytes, hex, normalize_digest};
use faktor::durable::{
    answer_digest, archive_digest, completeness_from_tag, completeness_tag,
    compressibility_from_tag, compressibility_tag, decode_tags, envelope_from_row,
    find_same_evidence, kind_from_tag, kind_tag, opened_outcome, page_of, plan_archive,
    plan_backing, prepare_archive, reads_backing, store_fault, stored_evidence, visible_rows,
    ArchivePlan, BackingPlan, BlobRead, DecodedColumns, DigestAnswer, EncodedColumns,
    EvidenceCrashArm, EvidenceCrashSeam, EvidenceRow, InsertEvent, InsertStep, Insertion, RowRead,
    StoreFault,
};
use faktor::ids::{SessionId, TaskId, WorkspaceId};
use faktor::store::{scoped, EvidenceAccessContext, EvidencePage, StoredEvidence};
use faktor::types::{
    BackingCompleteness, CompactRepresentation, Compressibility, CompressionRecord, EvidenceEnvelope,
    EvidenceError, EvidenceId, EvidenceKind, ProvenanceSet, ProvenanceSource, RetrievalPolicy,
};

/// A table of rows, beside the decoded form of their opaque columns, and blobs by
/// address.
struct Table {
    rows: Vec<(EvidenceRow, DecodedColumns)>,
    blobs: Vec<(String, Vec<u8>)>,
    last_id: u64,
    cap: usize,
}

impl Table {
    fn new(cap: usize) -> Table {
        Table { rows: Vec::new(), blobs: Vec::new(), last_id: 0, cap }
    }

    fn backing_cap(&self) -> usize {
        self.cap
    }

    fn insert_new(
        &mut self,
        envelope: &EvidenceEnvelope,
        backing: Option<&[u8]>,
    ) -> Result<EvidenceEnvelope, EvidenceError> {
        let columns = EncodedColumns {
            provenance_json: "p".to_string(),
            compression_json: "c".to_string(),
            retrieval_json: "r".to_string(),
            compact_json: "b".to_string(),
        };
        let (mut insertion, mut step) =
            Insertion::begin(envelope, columns, backing, self.cap, 0);
        loop {
            let event = match step {
                InsertStep::PutBlob(digest) => {
                    let address = hex(&digest);
                    if !self.blobs.iter().any(|b| b.0 == address) {
                        self.blobs.push((address, backing.unwrap().to_vec()));
                    }
                    InsertEvent::BlobStored
                }
                InsertStep::InsertRow(row) => self.insert_row(row, envelope),
                InsertStep::Done(stored) => return Ok(stored),
                InsertStep::Failed(e) => return Err(e),
            };
            step = insertion.advance(event);
        }
    }

    fn insert_row(&mut self, mut row: EvidenceRow, envelope: &EvidenceEnvelope) -> InsertEvent {
        if row.id == 0 {
            self.last_id += 1;
            row.id = self.last_id;
        } else if self.rows.iter().any(|r| r.0.id == row.id) {
            let said = format!("evidence {} exists", row.id);
            return InsertEvent::RowFailed(StoreFault::Conflict(said));
        }
        let id = row.id;
        self.rows.push((
            row,
            DecodedColumns {
                provenance: envelope.provenance.duplicate(),
                compression: envelope.compression.duplicate(),
                retrieval: envelope.retrieval,
                grammar: envelope.compact.grammar.clone(),
                body: envelope.compact.body.clone(),
                source_revision: envelope.source_revision.clone(),
            },
        ));
        InsertEvent::RowInserted { id }
    }

    fn envelope(&self, at: usize) -> Result<EvidenceEnvelope, EvidenceError> {
        let (row, columns) = &self.rows[at];
        envelope_from_row(row, decode_tags(row)?, columns.clone())
    }

    fn blob(&self, address: &str) -> BlobRead {
        match self.blobs.iter().find(|b| b.0 == address) {
            None => BlobRead::Missing,
            Some(b) if hex(&digest_bytes(&b.1)) == address => BlobRead::Bytes(b.1.clone()),
            Some(_) => BlobRead::Failed("hash mismatch".to_string()),
        }
    }

    fn get(&self, id: EvidenceId) -> Result<Option<StoredEvidence>, EvidenceError> {
        let Some(at) = self.rows.iter().position(|r| r.0.id == id.0) else {
            return Ok(None);
        };
        let envelope = self.envelope(at)?;
        let recorded = &self.rows[at].0.backing_cas_hash;
        let address = recorded.as_ref().map(|raw| normalize_digest(raw).unwrap());
        let read = match &address {
            Some(a) if reads_backing(&envelope, true) => self.blob(a),
            _ => BlobRead::Missing,
        };
        stored_evidence(envelope, address.as_deref(), read).map(Some)
    }

    fn get_scoped(
        &self,
        id: EvidenceId,
        ctx: &EvidenceAccessContext,
    ) -> Result<StoredEvidence, EvidenceError> {
        scoped(self.get(id)?, id, ctx)
    }

    fn read_backing_by_digest(
        &self,
        digest: &str,
        ctx: &EvidenceAccessContext,
    ) -> Result<Vec<u8>, EvidenceError> {
        let address = normalize_digest(digest).map_err(EvidenceError::Malformed)?;
        let mut reads: Vec<RowRead> = Vec::new();
        for at in 0..self.rows.len() {
            if self.rows[at].0.backing_cas_hash.as_ref() == Some(&address) {
                reads.push(match self.envelope(at) {
                    Ok(e) => RowRead::Found(e),
                    Err(e) => RowRead::Broken(e),
                });
            }
        }
        match answer_digest(&reads, ctx, &address) {
            DigestAnswer::Open(_) => opened_outcome(&address, self.blob(&address)),
            DigestAnswer::Broken(i) => match reads.swap_remove(i) {
                RowRead::Broken(e) => Err(e),
                _ => unreachable!(),
            },
            DigestAnswer::Refused(e) => Err(e),
        }
    }

    fn in_scope(&self, ctx: &EvidenceAccessContext) -> Vec<EvidenceEnvelope> {
        (0..self.rows.len())
            .filter(|at| {
                let row = &self.rows[*at].0;
                row.session_id.raw() == ctx.session_id && row.workspace_id.raw() == ctx.workspace_id
            })
            .map(|at| self.envelope(at).unwrap())
            .collect()
    }

    fn list_scoped_envelopes(
        &self,
        ctx: &EvidenceAccessContext,
        limit: usize,
    ) -> Result<Vec<EvidenceEnvelope>, EvidenceError> {
        let mut rows = self.in_scope(ctx);
        rows.truncate(limit);
        Ok(visible_rows(rows, ctx))
    }

    fn list_scoped(
        &self,
        ctx: &EvidenceAccessContext,
        limit: usize,
    ) -> Result<Vec<EvidenceId>, EvidenceError> {
        Ok(self.list_scoped_envelopes(ctx, limit)?.iter().map(|e| e.id).collect())
    }

    fn list_scoped_newest(
        &self,
        ctx: &EvidenceAccessContext,
        before: Option<u64>,
        limit: usize,
    ) -> Result<EvidencePage, EvidenceError> {
        if limit == 0 {
            return Ok(EvidencePage::default());
        }
        let mut rows = self.in_scope(ctx);
        rows.reverse();
        rows.retain(|e| before.map_or(true, |b| e.id.0 < b));
        rows.truncate(limit);
        Ok(page_of(rows, ctx))
    }
}

fn durable_envelope(
    session: SessionId,
    workspace: WorkspaceId,
    body: &str,
    compressibility: Compressibility,
    completeness: BackingCompleteness,
) -> EvidenceEnvelope {
    EvidenceEnvelope::new(
        EvidenceId(0),
        EvidenceKind::ProcessLog,
        session,
        workspace,
        Some(7),
        Some("rev-1".to_string()),
        ProvenanceSet::new(vec![ProvenanceSource::Tool]),
        compressibility,
        CompactRepresentation {
            grammar: "log-v1".to_string(),
            body: body.to_string(),
        },
        None,
        completeness,
        CompressionRecord::identity(17),
        RetrievalPolicy::new(true, true, 64),
    )
    .unwrap()
}

#[test]
fn durable_ids_survive_reopen_and_never_repeat() {
    let (sid, ws) = (SessionId::new(1), WorkspaceId::new(1));
    let mut durable = Table::new(1024);
    let (first, second);
    {
        let a = durable
            .insert_new(
                &durable_envelope(
                    sid,
                    ws,
                    "first",
                    Compressibility::Aggressive,
                    BackingCompleteness::Complete,
                ),
                Some(b"backing-one"),
            )
            .unwrap();
        let b = durable
            .insert_new(
                &durable_envelope(
                    sid,
                    ws,
                    "second",
                    Compressibility::Aggressive,
                    BackingCompleteness::Complete,
                ),
                Some(b"backing-two"),
            )
            .unwrap();
        first = a.id;
        second = b.id;
        assert!(first.0 >= 1 && second > first, "ids are monotonic");
    }
    // Ids resolve, the high-water mark is durable, and
    // a new insert continues above every id ever issued.
    {
        let reopened = durable.get(first).unwrap().expect("first id survives");
        assert_eq!(reopened.envelope.compact.body, "first");
        assert_eq!(reopened.backing.as_deref(), Some(&b"backing-one"[..]));
        let third = durable
            .insert_new(
                &durable_envelope(
                    SessionId::new(1),
                    WorkspaceId::new(1),
                    "third",
                    Compressibility::Aggressive,
                    BackingCompleteness::Complete,
                ),
                Some(b"backing-three"),
            )
            .unwrap();
        assert!(
            third.id > second,
            "an id is never issued twice: {:?} then {:?}",
            second,
            third.id
        );
        assert_eq!(durable.backing_cap(), 1024);
    }
}

#[test]
fn cross_session_retrieval_is_denied_even_with_the_known_backing_digest() {
    let (sid_a, ws) = (SessionId::new(1), WorkspaceId::new(1));
    let sid_b = SessionId::new(2);
    let mut durable = Table::new(1024);
    let stored = durable
        .insert_new(
            &durable_envelope(
                sid_a,
                ws,
                "secret body",
                Compressibility::Aggressive,
                BackingCompleteness::Complete,
            ),
            Some(b"private backing bytes"),
        )
        .unwrap();
    let digest = hex(&stored.backing_hash.expect("backing recorded"));

    // The owner can read the bytes by digest.
    let owner = EvidenceAccessContext::new(sid_a.raw(), ws.raw(), Some(7));
    assert_eq!(
        durable.read_backing_by_digest(&digest, &owner).unwrap(),
        b"private backing bytes"
    );
    assert_eq!(
        durable
            .get_scoped(stored.id, &owner)
            .unwrap()
            .backing
            .as_deref(),
        Some(&b"private backing bytes"[..])
    );

    // A different session that KNOWS the digest is denied — both by id
    // and by digest. Knowing the address is not authorization.
    let intruder = EvidenceAccessContext::new(sid_b.raw(), ws.raw(), Some(7));
    match durable.read_backing_by_digest(&digest, &intruder) {
        Err(EvidenceError::AccessDenied(_)) => {}
        other => panic!("known digest must not cross sessions, got {other:?}"),
    }
    match durable.get_scoped(stored.id, &intruder) {
        Err(EvidenceError::AccessDenied(_)) => {}
        other => panic!("known id must not cross sessions, got {other:?}"),
    }
    // The listing is scoped too.
    assert_eq!(durable.list_scoped(&owner, 100).unwrap(), vec![stored.id]);
    assert!(durable.list_scoped(&intruder, 100).unwrap().is_empty());

    // Hostile digests are typed malformed, not denials.
    for bad in ["", "zz", &"A".repeat(63), &"g".repeat(64)] {
        assert!(matches!(
            durable.read_backing_by_digest(bad, &owner),
            Err(EvidenceError::Malformed(_))
        ));
    }
    // Unknown (well-formed) digest is malformed too.
    assert!(matches!(
        durable.read_backing_by_digest(&"ab".repeat(32), &owner),
        Err(EvidenceError::Malformed(_))
    ));
}

#[test]
fn durable_backing_policy_and_corruption_are_honest() {
    let (sid, ws) = (SessionId::new(1), WorkspaceId::new(1));
    let mut durable = Table::new(8);
    let owner = EvidenceAccessContext::new(sid.raw(), ws.raw(), Some(7));

    // At the cap: bytes are written and exactly retrievable.
    let kept = durable
        .insert_new(
            &durable_envelope(
                sid,
                ws,
                "kept",
                Compressibility::Aggressive,
                BackingCompleteness::Complete,
            ),
            Some(b"12345678"),
        )
        .unwrap();
    assert_eq!(
        durable.get(kept.id).unwrap().unwrap().backing.as_deref(),
        Some(&b"12345678"[..])
    );

    // Over the cap: recorded digest survives, bytes are dropped.
    let dropped = durable
        .insert_new(
            &durable_envelope(
                sid,
                ws,
                "dropped",
                Compressibility::Aggressive,
                BackingCompleteness::Complete,
            ),
            Some(b"123456789"),
        )
        .unwrap();
    assert!(dropped.backing_hash.is_some());
    assert!(durable.get(dropped.id).unwrap().unwrap().backing.is_none());

    // Truncated capture never retains bytes even when small.
    let truncated = durable
        .insert_new(
            &durable_envelope(
                sid,
                ws,
                "truncated",
                Compressibility::Aggressive,
                BackingCompleteness::Truncated,
            ),
            Some(b"1"),
        )
        .unwrap();
    assert!(durable
        .get(truncated.id)
        .unwrap()
        .unwrap()
        .backing
        .is_none());

    // A duplicate explicit id is refused; the original row survives.
    let mut dup = kept.clone();
    dup.compact.body = "overwrite".into();
    match durable.insert_new(&dup, Some(b"other")) {
        Err(EvidenceError::Refused(_)) => {}
        other => panic!("duplicate id must be refused, got {other:?}"),
    }
    assert_eq!(
        durable.get(kept.id).unwrap().unwrap().envelope.compact.body,
        "kept"
    );

    // Envelope provenance/compression/retrieval/source_revision survive
    // the durable round trip byte-for-byte (the row is a lossless view).
    let stored = durable.get(kept.id).unwrap().unwrap();
    let original = durable_envelope(
        sid,
        ws,
        "kept",
        Compressibility::Aggressive,
        BackingCompleteness::Complete,
    );
    assert_eq!(stored.envelope.provenance, original.provenance);
    assert_eq!(stored.envelope.source_revision, original.source_revision);
    assert_eq!(stored.envelope.retrieval, original.retrieval);
    assert_eq!(stored.envelope.compressibility, original.compressibility);
    assert_eq!(
        stored.envelope.backing_completeness,
        original.backing_completeness
    );

    // Corruption injection LAST: the stored blob is overwritten in
    // place, so every later read is verified and is
    // a loud verification failure, never silently wrong content.
    let digest = hex(&kept.backing_hash.unwrap());
    durable.blobs.iter_mut().find(|b| b.0 == digest).unwrap().1 = b"tampered".to_vec();
    match durable.get_scoped(kept.id, &owner) {
        Err(EvidenceError::Malformed(m)) => assert!(m.contains("verification"), "{m}"),
        other => panic!("tampered backing must be malformed, got {other:?}"),
    }
    match durable.read_backing_by_digest(&digest, &owner) {
        Err(EvidenceError::Malformed(m)) => assert!(m.contains("verification"), "{m}"),
        other => panic!("tampered digest read must be malformed, got {other:?}"),
    }
}

#[test]
fn durable_newest_listing_orders_by_id_desc_and_honors_the_cursor() {
    let (sid, ws) = (SessionId::new(1), WorkspaceId::new(1));
    let mut authority = Table::new(4096);
    let owner = EvidenceAccessContext::new(sid.raw(), ws.raw(), Some(7));
    for i in 0..10 {
        authority
            .insert_new(
                &durable_envelope(
                    sid,
                    ws,
                    &format!("row-{i}"),
                    Compressibility::Aggressive,
                    BackingCompleteness::Complete,
                ),
                None,
            )
            .unwrap();
    }
    let page = authority.list_scoped_newest(&owner, None, 4).unwrap();
    assert_eq!(
        page.rows.iter().map(|e| e.id.0).collect::<Vec<_>>(),
        vec![10, 9, 8, 7]
    );
    assert_eq!(page.next_before, Some(7));
    let rest = authority
        .list_scoped_newest(&owner, page.next_before, 100)
        .unwrap();
    assert_eq!(
        rest.rows.iter().map(|e| e.id.0).collect::<Vec<_>>(),
        vec![6, 5, 4, 3, 2, 1]
    );
    let exhausted = authority
        .list_scoped_newest(&owner, rest.next_before, 10)
        .unwrap();
    assert!(exhausted.rows.is_empty());
    // A task scope that owns no rows still advances the cursor past the
    // last fetched row (progress, never a stall).
    let foreign_task =
        EvidenceAccessContext::for_task(sid.raw(), ws.raw(), TaskId::new(999));
    let hidden = authority
        .list_scoped_newest(&foreign_task, None, 4)
        .unwrap();
    assert!(hidden.rows.is_empty());
    assert!(hidden.next_before.is_some(), "the fetched cursor advances");
}

#[test]
fn corrupt_blob_post_persist_fails_loudly_on_retrieval() {
    let (sid, ws) = (SessionId::new(1), WorkspaceId::new(1));
    let mut authority = Table::new(4096);
    let owner = EvidenceAccessContext::new(sid.raw(), ws.raw(), Some(7));
    let stored = authority
        .insert_new(
            &durable_envelope(
                sid,
                ws,
                "corrupt",
                Compressibility::Aggressive,
                BackingCompleteness::Complete,
            ),
            Some(b"verified once"),
        )
        .unwrap();
    let hash = hex(&stored.backing_hash.expect("hash recorded"));
    assert_eq!(authority.blob(&hash), BlobRead::Bytes(b"verified once".to_vec()));
    authority.blobs[0].1 = b"not a zstd frame at all".to_vec();
    assert!(
        matches!(authority.blob(&hash), BlobRead::Failed(_)),
        "the strict read must fail loudly"
    );
    assert!(matches!(
        authority.get_scoped(stored.id, &owner),
        Err(EvidenceError::Malformed(_))
    ));
    assert!(matches!(
        authority.read_backing_by_digest(&hash, &owner),
        Err(EvidenceError::Malformed(_))
    ));
}

#[test]
fn a_retry_after_a_crash_reuses_the_blob() {
    let (sid, ws) = (SessionId::new(1), WorkspaceId::new(1));
    let mut authority = Table::new(4096);
    let owner = EvidenceAccessContext::new(sid.raw(), ws.raw(), Some(7));
    let env = durable_envelope(
        sid,
        ws,
        "crash-after-blob",
        Compressibility::Aggressive,
        BackingCompleteness::Complete,
    );
    // The blob is persisted first; a crash here leaves it without a row.
    authority
        .blobs
        .push((hex(&digest_bytes(b"blob first bytes")), b"blob first bytes".to_vec()));
    assert!(authority.list_scoped(&owner, 100).unwrap().is_empty());
    let retry = authority.insert_new(&env, Some(b"blob first bytes")).unwrap();
    assert_eq!(authority.blobs.len(), 1, "the retry reuses the blob");
    assert_eq!(
        authority.get_scoped(retry.id, &owner).unwrap().backing.as_deref(),
        Some(&b"blob first bytes"[..])
    );
    // A row whose bytes went away is an error by digest and no bytes by id.
    authority.blobs.clear();
    assert!(authority.get_scoped(retry.id, &owner).unwrap().backing.is_none());
    let address = hex(&retry.backing_hash.unwrap());
    assert_eq!(
        authority.read_backing_by_digest(&address, &owner),
        Err(EvidenceError::Malformed(format!(
            "backing {address} is recorded but its bytes are absent"
        )))
    );
}

#[test]
fn an_armed_seam_fires_once_at_its_crossing() {
    let mut seam = EvidenceCrashSeam::default();
    assert!(!seam.trip("evidence_blob_persisted"));
    seam.arm(EvidenceCrashArm { point: "evidence_row_inserted", ordinal: 1 });
    let crossings = [
        "evidence_row_inserted",
        "evidence_blob_persisted",
        "evidence_row_inserted",
        "evidence_row_inserted",
    ];
    let fired: Vec<bool> = crossings.iter().map(|p| seam.trip(p)).collect();
    assert_eq!(fired, vec![false, false, true, false]);
}

#[test]
fn a_plan_follows_the_retention_rule() {
    let env = durable_envelope(
        SessionId::new(1),
        WorkspaceId::new(2),
        "x",
        Compressibility::Aggressive,
        BackingCompleteness::Complete,
    );
    assert_eq!(plan_backing(&env, None, 4), BackingPlan::Declared(None));
    assert_eq!(plan_backing(&env, Some(b"1234"), 4), BackingPlan::Stored(digest_bytes(b"1234")));
    assert_eq!(plan_backing(&env, Some(b"12345"), 4), BackingPlan::Dropped(digest_bytes(b"12345")));
    let mut declared = env.duplicate();
    declared.backing_hash = Some([7u8; 32]);
    assert_eq!(plan_backing(&declared, Some(b"12345"), 4), BackingPlan::Dropped([7u8; 32]));
    assert_eq!(plan_backing(&declared, None, 4), BackingPlan::Declared(Some([7u8; 32])));
    // The digest of stored bytes is recomputed, whatever was declared.
    assert_eq!(plan_backing(&declared, Some(b"1"), 4), BackingPlan::Stored(digest_bytes(b"1")));
}

#[test]
fn tags_read_back_and_unknown_tags_are_refused() {
    for kind in [
        EvidenceKind::DiagnosticSet,
        EvidenceKind::TestReport,
        EvidenceKind::SearchResults,
        EvidenceKind::FileMap,
        EvidenceKind::Diff,
        EvidenceKind::ProcessLog,
        EvidenceKind::SymbolSet,
        EvidenceKind::StructuredRows,
        EvidenceKind::ChildHandoff,
        EvidenceKind::SemanticContext,
        EvidenceKind::GenericText,
    ] {
        assert_eq!(kind_from_tag(kind_tag(kind)), Some(kind));
    }
    for c in [
        Compressibility::Never,
        Compressibility::LosslessOnly,
        Compressibility::Reversible,
        Compressibility::Aggressive,
    ] {
        assert_eq!(compressibility_from_tag(compressibility_tag(c)), Some(c));
    }
    for c in [BackingCompleteness::Complete, BackingCompleteness::Truncated] {
        assert_eq!(completeness_from_tag(completeness_tag(c)), Some(c));
    }
    assert_eq!(kind_from_tag("DiagnosticSet"), None);

    let env = durable_envelope(
        SessionId::new(1),
        WorkspaceId::new(2),
        "x",
        Compressibility::Aggressive,
        BackingCompleteness::Truncated,
    );
    let mut table = Table::new(8);
    table.insert_new(&env, None).unwrap();
    table.rows[0].0.completeness = "partial".to_string();
    assert_eq!(
        table.get(EvidenceId(1)),
        Err(EvidenceError::Malformed(
            "evidence 1 completeness: unknown variant `partial`, expected `complete` or `truncated`"
                .to_string()
        ))
    );
    table.rows[0].0.completeness = "truncated".to_string();
    table.rows[0].0.compressibility = "reversible".to_string();
    match table.get(EvidenceId(1)) {
        Err(EvidenceError::Malformed(m)) => {
            assert!(m.starts_with("evidence 1 envelope: evidence refused: "), "{m}")
        }
        other => panic!("a row without an envelope must be refused, got {other:?}"),
    }
    table.rows[0].0.compressibility = "aggressive".to_string();
    table.rows[0].0.backing_cas_hash = Some("xy".to_string());
    match table.get(EvidenceId(1)) {
        Err(EvidenceError::Malformed(m)) => {
            assert!(m.starts_with("evidence 1 backing: malformed evidence: "), "{m}")
        }
        other => panic!("a bad digest column must be refused, got {other:?}"),
    }
}

#[test]
fn a_digest_is_answered_row_by_row() {
    let env = |session: u64| {
        let mut e = durable_envelope(
            SessionId::new(session),
            WorkspaceId::new(2),
            "x",
            Compressibility::Aggressive,
            BackingCompleteness::Complete,
        );
        e.id = EvidenceId(session);
        e
    };
    let ctx = EvidenceAccessContext::new(3, 2, Some(7));
    let refused = |rows: Vec<RowRead>| match answer_digest(&rows, &ctx, "ab") {
        DigestAnswer::Refused(e) => e,
        other => panic!("expected a refusal, got {other:?}"),
    };
    assert_eq!(
        refused(vec![]),
        EvidenceError::Malformed("unknown backing digest ab".to_string())
    );
    assert_eq!(
        refused(vec![RowRead::Missing]),
        EvidenceError::AccessDenied(
            "backing digest ab has no envelope visible to this scope".to_string()
        )
    );
    assert_eq!(
        refused(vec![RowRead::Found(env(1)), RowRead::Missing, RowRead::Found(env(2))]),
        EvidenceError::AccessDenied(
            "evidence 2 belongs to session 2 workspace 2 task 7; caller is session 3 workspace 2 \
             scope Task(TaskId(7))"
                .to_string()
        )
    );
    let broken = || RowRead::Broken(EvidenceError::Malformed("x".to_string()));
    let rows = vec![RowRead::Found(env(1)), RowRead::Found(env(3)), broken()];
    assert!(matches!(answer_digest(&rows, &ctx, "ab"), DigestAnswer::Open(1)));
    let rows = vec![RowRead::Found(env(1)), broken(), RowRead::Found(env(3))];
    assert!(matches!(answer_digest(&rows, &ctx, "ab"), DigestAnswer::Broken(1)));

    let rows = vec![RowRead::Missing, RowRead::Found(env(1)), RowRead::Found(env(3))];
    let find = |kind, revision| find_same_evidence(&rows, kind, revision, &ctx);
    assert_eq!(find(EvidenceKind::ProcessLog, Some("rev-1")), Some(2));
    assert_eq!(find(EvidenceKind::ProcessLog, Some("rev-2")), None);
    assert_eq!(find(EvidenceKind::ProcessLog, None), None);
    assert_eq!(find(EvidenceKind::Diff, Some("rev-1")), None);
}

#[test]
fn archived_text_is_compacted_and_bounded() {
    let raw = "error one\nerror two\n";
    let env = prepare_archive(
        SessionId::new(1),
        WorkspaceId::new(2),
        None,
        EvidenceKind::ProcessLog,
        Some("r"),
        ProvenanceSource::Tool,
        raw,
        8192,
    )
    .unwrap();
    assert_eq!(env.id, EvidenceId(0));
    assert_eq!(env.retrieval, RetrievalPolicy::new(true, true, 8192));
    assert_eq!(env.backing_hash, Some(*blake3::hash(raw.as_bytes()).as_bytes()));
    assert_eq!(archive_digest(raw), blake3::hash(raw.as_bytes()).to_hex().to_string());
    match prepare_archive(
        SessionId::new(1),
        WorkspaceId::new(2),
        None,
        EvidenceKind::GenericText,
        None,
        ProvenanceSource::Tool,
        "abcdef",
        5,
    ) {
        Err(EvidenceError::Oversized { max, actual }) => assert_eq!((max, actual), (5, 6)),
        other => panic!("expected Oversized, got {other:?}"),
    }
    assert_eq!(
        store_fault(StoreFault::Other("gone".to_string())),
        EvidenceError::Malformed("gone".to_string())
    );
    assert_eq!(
        store_fault(StoreFault::Oversized { max: 3, actual: 4 }),
        EvidenceError::Oversized { max: 3, actual: 4 }
    );
    assert_eq!(
        store_fault(StoreFault::Conflict("taken".to_string())),
        EvidenceError::Refused("taken".to_string())
    );
}

#[test]
fn archiving_a_text_again_finds_the_same_evidence() {
    let raw = "error one\nerror two\n";
    let plan = |rows: &Vec<RowRead>, session: u64, task, revision, cap| {
        plan_archive(
            rows,
            SessionId::new(session),
            WorkspaceId::new(2),
            task,
            EvidenceKind::ProcessLog,
            revision,
            ProvenanceSource::Tool,
            raw,
            cap,
        )
    };
    let first = match plan(&vec![], 1, Some(7), Some("r"), 8192) {
        ArchivePlan::Insert(env) => env,
        other => panic!("new evidence is inserted, got {other:?}"),
    };
    let mut table = Table::new(4096);
    let stored = table.insert_new(&first, Some(raw.as_bytes())).unwrap();
    assert_eq!(hex(&stored.backing_hash.unwrap()), archive_digest(raw));

    let rows = vec![RowRead::Missing, RowRead::Found(stored)];
    assert!(matches!(plan(&rows, 1, Some(7), Some("r"), 8192), ArchivePlan::Known(1)));
    assert!(matches!(plan(&rows, 1, None, Some("r"), 8192), ArchivePlan::Known(1)));
    // Another session, task or revision has evidence of its own.
    assert!(matches!(plan(&rows, 9, Some(7), Some("r"), 8192), ArchivePlan::Insert(_)));
    assert!(matches!(plan(&rows, 1, Some(8), Some("r"), 8192), ArchivePlan::Insert(_)));
    assert!(matches!(plan(&rows, 1, Some(7), None, 8192), ArchivePlan::Insert(_)));
    // The bound holds only for what is to be stored.
    assert!(matches!(plan(&rows, 1, Some(7), Some("r"), 3), ArchivePlan::Known(1)));
    assert!(matches!(
        plan(&vec![], 1, Some(7), Some("r"), 3),
        ArchivePlan::Refused(EvidenceError::Oversized { max: 3, .. })
    ));
    let rows = vec![RowRead::Broken(EvidenceError::Malformed("x".to_string()))];
    assert!(matches!(plan(&rows, 1, Some(7), Some("r"), 8192), ArchivePlan::Broken(0)));
}

#[test]
fn a_row_is_given_out_only_behind_its_blob() {
    let env = durable_envelope(
        SessionId::new(1),
        WorkspaceId::new(2),
        "x",
        Compressibility::Aggressive,
        BackingCompleteness::Complete,
    );
    let columns = || EncodedColumns {
        provenance_json: String::new(),
        compression_json: String::new(),
        retrieval_json: String::new(),
        compact_json: String::new(),
    };
    let (mut i, step) = Insertion::begin(&env, columns(), Some(b"bytes"), 64, 5);
    assert!(matches!(step, InsertStep::PutBlob(d) if d == digest_bytes(b"bytes")));
    match i.advance(InsertEvent::BlobStored) {
        InsertStep::InsertRow(row) => {
            assert_eq!(row.backing_cas_hash, Some(hex(&digest_bytes(b"bytes"))));
            assert_eq!(row.created_ms, 5);
        }
        other => panic!("the row follows the blob, got {other:?}"),
    }
    let (mut i, _) = Insertion::begin(&env, columns(), Some(b"bytes"), 64, 5);
    match i.advance(InsertEvent::BlobFailed { said: "full".to_string() }) {
        InsertStep::Failed(e) => {
            assert_eq!(e, EvidenceError::Malformed("backing cas put: full".to_string()))
        }
        other => panic!("no row without its blob, got {other:?}"),
    }
    // Dropped bytes need no blob.
    let (_, step) = Insertion::begin(&env, columns(), Some(b"bytes"), 4, 5);
    assert!(matches!(step, InsertStep::InsertRow(_)));
}

#[test]
fn what_is_inserted_reads_back_with_its_bytes() {
    let env = durable_envelope(
        SessionId::new(1),
        WorkspaceId::new(2),
        "x",
        Compressibility::Aggressive,
        BackingCompleteness::Complete,
    );
    let mut table = Table::new(8);
    let stored = table.insert_new(&env, Some(b"bytes")).unwrap();
    assert_eq!(stored.backing_hash, Some(digest_bytes(b"bytes")));
    let read = table.get(stored.id).unwrap().unwrap();
    assert_eq!(read, StoredEvidence { envelope: stored, backing: Some(b"bytes".to_vec()) });
    // Beyond the cap the bytes are dropped, and the envelope still reads back.
    let stored = table.insert_new(&env, Some(b"too many bytes")).unwrap();
    let read = table.get(stored.id).unwrap().unwrap();
    assert_eq!(read, StoredEvidence { envelope: stored, backing: None });
}

#[test]
fn a_row_that_the_table_finds_too_large_stays_oversized() {
    let env = durable_envelope(
        SessionId::new(1),
        WorkspaceId::new(2),
        "x",
        Compressibility::Aggressive,
        BackingCompleteness::Complete,
    );
    let columns = EncodedColumns {
        provenance_json: String::new(),
        compression_json: String::new(),
        retrieval_json: String::new(),
        compact_json: String::new(),
    };
    let (mut i, step) = Insertion::begin(&env, columns, None, 64, 5);
    assert!(matches!(step, InsertStep::InsertRow(_)));
    match i.advance(InsertEvent::RowFailed(StoreFault::Oversized { max: 3, actual: 4 })) {
        InsertStep::Failed(e) => assert_eq!(e, EvidenceError::Oversized { max: 3, actual: 4 }),
        other => panic!("a refused row fails the insertion, got {other:?}"),
    }
}

#[test]
fn archiving_twice_keeps_one_row_and_gives_one_envelope() {
    let raw = "error one\nerror two\n";
    let mut table = Table::new(4096);
    let mut given = Vec::new();
    for _ in 0..2 {
        let rows: Vec<RowRead> =
            (0..table.rows.len()).map(|at| RowRead::Found(table.envelope(at).unwrap())).collect();
        let plan = plan_archive(
            &rows,
            SessionId::new(1),
            WorkspaceId::new(2),
            Some(7),
            EvidenceKind::ProcessLog,
            None,
            ProvenanceSource::Tool,
            raw,
            8192,
        );
        given.push(match plan {
            ArchivePlan::Insert(env) => table.insert_new(&env, Some(raw.as_bytes())).unwrap(),
            ArchivePlan::Known(i) => table.envelope(i).unwrap(),
            other => panic!("{other:?}"),
        });
    }
    assert_eq!(table.rows.len(), 1);
    assert_eq!(given[0], given[1]);
}

#[test]
fn a_digest_recorded_on_insertion_makes_reversible_evidence_readable() {
    let mut env = durable_envelope(
        SessionId::new(1),
        WorkspaceId::new(2),
        "x",
        Compressibility::Aggressive,
        BackingCompleteness::Complete,
    );
    // Not sound as it stands: the digest is not known yet.
    env.compressibility = Compressibility::Reversible;
    let mut table = Table::new(8);
    let stored = table.insert_new(&env, Some(b"bytes")).unwrap();
    assert_eq!(stored.backing_hash, Some(digest_bytes(b"bytes")));
    let read = table.get(stored.id).unwrap().unwrap();
    assert_eq!(read, StoredEvidence { envelope: stored, backing: Some(b"bytes".to_vec()) });
    // Without bytes there is no digest, and the row is refused when it is read.
    let stored = table.insert_new(&env, None).unwrap();
    assert!(matches!(table.get(stored.id), Err(EvidenceError::Malformed(_))));
}

//! Decisions of the durable evidence store: what is written for an envelope,
//! what a row reads back as, which reader may follow a backing digest, and when
//! a crash seam fires. Tables and blobs themselves are the caller's.
use vstd::prelude::*;

use crate::compress;
use crate::digest;
use crate::ids::{SessionId, WorkspaceId};
use crate::store;
use crate::store::{EvidenceAccessContext, EvidencePage, StoredEvidence};
use crate::text;
use crate::types;
use crate::types::{
    BackingCompleteness, CompactRepresentation, Compressibility, CompressionRecord,
    EvidenceEnvelope, EvidenceError, EvidenceId, EvidenceKind, ProvenanceSet, ProvenanceSource,
    RetrievalPolicy,
};

verus! {

// -------------------------------------------------------------- crash seam

/// One-shot fault target: fire at the `ordinal`-th crossing, counted from zero,
/// of the durability boundary `point`.
#[derive(Debug, Clone, Copy, PartialEq, Eq)]
pub struct EvidenceCrashArm {
    /// `evidence_blob_persisted` (blob written, row not yet inserted) or
    /// `evidence_row_inserted` (row committed, response not yet returned).
    pub point: &'static str,
    pub ordinal: u64,
}

/// Deterministic crash seam of evidence inserts. Inert unless armed; fires at
/// most once per arm.
#[derive(Debug)]
pub struct EvidenceCrashSeam {
    armed: Option<EvidenceCrashArm>,
    crossings: u64,
}

/// The state of a seam: the armed boundary with its ordinal, and how often the
/// boundary was crossed since.
#[verifier::ext_equal]
pub struct SeamView {
    pub armed: Option<(Seq<char>, u64)>,
    pub crossings: nat,
}

impl View for EvidenceCrashSeam {
    type V = SeamView;

    closed spec fn view(&self) -> SeamView {
        SeamView {
            armed: match self.armed {
                Some(a) => Some((a.point@, a.ordinal)),
                None => None,
            },
            crossings: self.crossings as nat,
        }
    }
}

impl SeamView {
    /// Crossing `point` hits the armed crossing.
    pub open spec fn fires(self, point: Seq<char>) -> bool {
        self.armed matches Some(a) && a.0 == point && self.crossings == a.1
    }

    /// The state after crossing `point`.
    pub open spec fn crossed(self, point: Seq<char>) -> SeamView {
        match self.armed {
            Some(a) => if a.0 != point {
                self
            } else if self.crossings == a.1 {
                SeamView { armed: None, crossings: self.crossings }
            } else {
                SeamView { crossings: self.crossings + 1, ..self }
            },
            None => self,
        }
    }

    /// Which of the crossings `points` fire, one after the other.
    pub open spec fn firings(self, points: Seq<Seq<char>>) -> Seq<bool>
        decreases points.len(),
    {
        if points.len() == 0 {
            Seq::empty()
        } else {
            seq![self.fires(points[0])] + self.crossed(points[0]).firings(points.drop_first())
        }
    }
}

impl Default for EvidenceCrashSeam {
    fn default() -> (r: Self)
        ensures
            r@ == (SeamView { armed: None, crossings: 0 }),
    {
        EvidenceCrashSeam { armed: None, crossings: 0 }
    }
}

impl EvidenceCrashSeam {
    /// The count never passes the armed ordinal.
    pub open spec fn well_formed(&self) -> bool {
        self@.armed matches Some(a) ==> self@.crossings <= a.1
    }

    /// Arms one crossing, replacing any previous arm and resetting the count.
    pub fn arm(&mut self, arm: EvidenceCrashArm)
        ensures
            final(self)@ == (SeamView { armed: Some((arm.point@, arm.ordinal)), crossings: 0 }),
            final(self).well_formed(),
    {
        self.armed = Some(arm);
        self.crossings = 0;
    }

    /// Crosses `point`. Returns whether the armed crossing is hit; the caller
    /// then crashes.
    pub fn trip(&mut self, point: &str) -> (r: bool)
        requires
            old(self).well_formed(),
        ensures
            r == old(self)@.fires(point@),
            final(self)@ == old(self)@.crossed(point@),
            final(self).well_formed(),
    {
        let arm: EvidenceCrashArm = match self.armed {
            Some(a) => a,
            None => {
                return false;
            },
        };
        let here: Vec<char> = text::chars_of(point);
        let there: Vec<char> = text::chars_of(arm.point);
        if !text::chars_eq(here.as_slice(), there.as_slice()) {
            return false;
        }
        if self.crossings != arm.ordinal {
            self.crossings = self.crossings + 1;
            return false;
        }
        self.armed = None;
        true
    }
}

/// How often `point` occurs among `points`.
pub open spec fn occurrences(points: Seq<Seq<char>>, point: Seq<char>) -> nat
    decreases points.len(),
{
    if points.len() == 0 {
        0
    } else {
        (if points[0] == point {
            1nat
        } else {
            0nat
        }) + occurrences(points.drop_first(), point)
    }
}

/// An armed seam fires at exactly one crossing: the one of its boundary before
/// which the boundary was crossed `ordinal` times. A seam that is not armed
/// never fires.
pub proof fn law_seam_fires_once(seam: SeamView, points: Seq<Seq<char>>, i: int)
    requires
        0 <= i < points.len(),
        seam.armed matches Some(a) ==> seam.crossings <= a.1,
    ensures
        seam.firings(points).len() == points.len(),
        seam.firings(points)[i] <==> (seam.armed matches Some(a) && a.0 == points[i]
            && seam.crossings + occurrences(points.take(i), a.0) == a.1),
    decreases points.len(),
{
    let next = seam.crossed(points[0]);
    let rest = points.drop_first();
    lemma_firings_len(seam, points);
    if i > 0 {
        law_seam_fires_once(next, rest, i - 1);
        assert(rest[i - 1] == points[i]);
        assert(points.take(i).drop_first() =~= rest.take(i - 1));
        assert(points.take(i)[0] == points[0]);
        if let Some(a) = seam.armed {
            if seam.fires(points[0]) {
                // The seam is spent: the boundary was crossed once more.
                assert(occurrences(points.take(i), a.0) >= 1);
            }
        }
    } else {
        assert(points.take(0) =~= Seq::empty());
    }
}

proof fn lemma_firings_len(seam: SeamView, points: Seq<Seq<char>>)
    ensures
        seam.firings(points).len() == points.len(),
    decreases points.len(),
{
    if points.len() > 0 {
        lemma_firings_len(seam.crossed(points[0]), points.drop_first());
    }
}

// ----------------------------------------------------------------- backing

/// What is done with presented backing bytes.
#[derive(Debug, Clone, Copy, PartialEq, Eq)]
pub enum BackingPlan {
    /// No bytes were presented: the row records the declared hash, if any.
    Declared(Option<[u8; 32]>),
    /// The bytes are dropped by policy: the row records this digest.
    Dropped([u8; 32]),
    /// The bytes are stored under this digest.
    Stored([u8; 32]),
}

/// The plan for presented bytes.
pub open spec fn plans(
    plan: BackingPlan,
    env: types::EnvelopeView,
    backing: Option<Seq<u8>>,
    cap: nat,
) -> bool {
    match backing {
        None => plan matches BackingPlan::Declared(h) && types::opt_digest(h) == env.backing_hash,
        Some(b) => if store::retains(env, b.len(), cap) {
            plan matches BackingPlan::Stored(d) && d@ == digest::blake3_of(b)
        } else {
            plan matches BackingPlan::Dropped(d) && d@ == (match env.backing_hash {
                Some(h) => h,
                None => digest::blake3_of(b),
            })
        },
    }
}

/// Decides what is done with presented bytes, by the same retention rule as the
/// memory store.
pub fn plan_backing(envelope: &EvidenceEnvelope, backing: Option<&[u8]>, cap: usize) -> (r:
    BackingPlan)
    ensures
        plans(
            r,
            envelope@,
            match backing {
                Some(b) => Some(b@),
                None => None,
            },
            cap as nat,
        ),
{
    match backing {
        None => BackingPlan::Declared(envelope.backing_hash),
        Some(bytes) => {
            let digest: [u8; 32] = digest::digest_bytes(bytes);
            let compactable: bool = envelope.compressibility == Compressibility::Reversible
                || envelope.compressibility == Compressibility::Aggressive;
            if !compactable || envelope.backing_completeness != BackingCompleteness::Complete
                || bytes.len() > cap {
                match envelope.backing_hash {
                    Some(h) => BackingPlan::Dropped(h),
                    None => BackingPlan::Dropped(digest),
                }
            } else {
                BackingPlan::Stored(digest)
            }
        },
    }
}

impl BackingPlan {
    /// The digest that the row records, in hexadecimal.
    pub open spec fn recorded(self) -> Option<Seq<u8>> {
        match self {
            BackingPlan::Declared(h) => types::opt_digest(h),
            BackingPlan::Dropped(d) => Some(d@),
            BackingPlan::Stored(d) => Some(d@),
        }
    }

    /// The digest that the row records.
    pub fn hash(&self) -> (r: Option<[u8; 32]>)
        ensures
            types::opt_digest(r) == self.recorded(),
    {
        match self {
            BackingPlan::Declared(h) => *h,
            BackingPlan::Dropped(d) => Some(*d),
            BackingPlan::Stored(d) => Some(*d),
        }
    }
}

/// The envelope as it was inserted: with the assigned id and, where a digest
/// was recorded, with that digest.
pub fn as_inserted(envelope: &EvidenceEnvelope, id: u64, plan: &BackingPlan) -> (r:
    EvidenceEnvelope)
    ensures
        r@ == (types::EnvelopeView {
            id,
            backing_hash: match plan.recorded() {
                Some(h) => Some(h),
                None => envelope@.backing_hash,
            },
            ..envelope@
        }),
{
    let mut stored: EvidenceEnvelope = envelope.duplicate();
    stored.id = EvidenceId(id);
    if let Some(h) = plan.hash() {
        stored.backing_hash = Some(h);
    }
    stored
}

/// Whether reading a row also reads its blob: it records a digest, and the
/// envelope is compactable over a complete capture.
pub fn reads_backing(envelope: &EvidenceEnvelope, recorded: bool) -> (r: bool)
    ensures
        r == (recorded && store::retains(envelope@, 0, 0)),
{
    let compactable: bool = envelope.compressibility == Compressibility::Reversible
        || envelope.compressibility == Compressibility::Aggressive;
    recorded && compactable && envelope.backing_completeness == BackingCompleteness::Complete
}

// -------------------------------------------------------------------- tags

/// The tag of a compressibility in a row.
pub open spec fn compressibility_tag_of(c: Compressibility) -> Seq<char> {
    match c {
        Compressibility::Never => "never"@,
        Compressibility::LosslessOnly => "lossless_only"@,
        Compressibility::Reversible => "reversible"@,
        Compressibility::Aggressive => "aggressive"@,
    }
}

/// The tag of a completeness in a row.
pub open spec fn completeness_tag_of(c: BackingCompleteness) -> Seq<char> {
    match c {
        BackingCompleteness::Complete => "complete"@,
        BackingCompleteness::Truncated => "truncated"@,
    }
}

/// The tag of a compressibility in a row.
pub fn compressibility_tag(c: Compressibility) -> (r: &'static str)
    ensures
        r@ == compressibility_tag_of(c),
{
    match c {
        Compressibility::Never => "never",
        Compressibility::LosslessOnly => "lossless_only",
        Compressibility::Reversible => "reversible",
        Compressibility::Aggressive => "aggressive",
    }
}

/// The tag of a completeness in a row.
pub fn completeness_tag(c: BackingCompleteness) -> (r: &'static str)
    ensures
        r@ == completeness_tag_of(c),
{
    match c {
        BackingCompleteness::Complete => "complete",
        BackingCompleteness::Truncated => "truncated",
    }
}

/// The tag of a kind in a row.
pub fn kind_tag(kind: EvidenceKind) -> (r: &'static str)
    ensures
        r@ == compress::label_of(kind),
{
    compress::kind_label(&kind)
}

/// Whether two texts are the same.
fn same_text(a: &str, b: &str) -> (r: bool)
    ensures
        r == (a@ == b@),
{
    let x: Vec<char> = text::chars_of(a);
    let y: Vec<char> = text::chars_of(b);
    text::chars_eq(x.as_slice(), y.as_slice())
}

proof fn lemma_kind_tags_differ()
    ensures
        forall|a: EvidenceKind, b: EvidenceKind|
            #![trigger compress::label_of(a), compress::label_of(b)]
            compress::label_of(a) == compress::label_of(b) ==> a == b,
{
    reveal_strlit("diagnostic_set");
    reveal_strlit("test_report");
    reveal_strlit("search_results");
    reveal_strlit("file_map");
    reveal_strlit("diff");
    reveal_strlit("process_log");
    reveal_strlit("symbol_set");
    reveal_strlit("structured_rows");
    reveal_strlit("child_handoff");
    reveal_strlit("semantic_context");
    reveal_strlit("generic_text");
    assert forall|a: EvidenceKind, b: EvidenceKind|
        #![trigger compress::label_of(a), compress::label_of(b)]
        compress::label_of(a) == compress::label_of(b) implies a == b by {
        let s = compress::label_of(a);
        let t = compress::label_of(b);
        assert(s.len() == t.len());
        assert(s[0] == t[0]);
        assert(s[2] == t[2]);
    }
}

/// The kind that a tag names.
pub fn kind_from_tag(tag: &str) -> (r: Option<EvidenceKind>)
    ensures
        r matches Some(k) ==> compress::label_of(k) == tag@,
        r is None ==> forall|k: EvidenceKind| #[trigger] compress::label_of(k) != tag@,
{
    if same_text(tag, "diagnostic_set") {
        Some(EvidenceKind::DiagnosticSet)
    } else if same_text(tag, "test_report") {
        Some(EvidenceKind::TestReport)
    } else if same_text(tag, "search_results") {
        Some(EvidenceKind::SearchResults)
    } else if same_text(tag, "file_map") {
        Some(EvidenceKind::FileMap)
    } else if same_text(tag, "diff") {
        Some(EvidenceKind::Diff)
    } else if same_text(tag, "process_log") {
        Some(EvidenceKind::ProcessLog)
    } else if same_text(tag, "symbol_set") {
        Some(EvidenceKind::SymbolSet)
    } else if same_text(tag, "structured_rows") {
        Some(EvidenceKind::StructuredRows)
    } else if same_text(tag, "child_handoff") {
        Some(EvidenceKind::ChildHandoff)
    } else if same_text(tag, "semantic_context") {
        Some(EvidenceKind::SemanticContext)
    } else if same_text(tag, "generic_text") {
        Some(EvidenceKind::GenericText)
    } else {
        None
    }
}

/// The compressibility that a tag names.
pub fn compressibility_from_tag(tag: &str) -> (r: Option<Compressibility>)
    ensures
        r matches Some(c) ==> compressibility_tag_of(c) == tag@,
        r is None ==> forall|c: Compressibility| #[trigger] compressibility_tag_of(c) != tag@,
{
    if same_text(tag, "never") {
        Some(Compressibility::Never)
    } else if same_text(tag, "lossless_only") {
        Some(Compressibility::LosslessOnly)
    } else if same_text(tag, "reversible") {
        Some(Compressibility::Reversible)
    } else if same_text(tag, "aggressive") {
        Some(Compressibility::Aggressive)
    } else {
        None
    }
}

/// The completeness that a tag names.
pub fn completeness_from_tag(tag: &str) -> (r: Option<BackingCompleteness>)
    ensures
        r matches Some(c) ==> completeness_tag_of(c) == tag@,
        r is None ==> forall|c: BackingCompleteness| #[trigger] completeness_tag_of(c) != tag@,
{
    if same_text(tag, "complete") {
        Some(BackingCompleteness::Complete)
    } else if same_text(tag, "truncated") {
        Some(BackingCompleteness::Truncated)
    } else {
        None
    }
}

/// A tag names one value: no two kinds, compressibilities or completenesses
/// share a tag.
pub proof fn law_tags_are_distinct(
    k1: EvidenceKind,
    k2: EvidenceKind,
    c1: Compressibility,
    c2: Compressibility,
    b1: BackingCompleteness,
    b2: BackingCompleteness,
)
    ensures
        compress::label_of(k1) == compress::label_of(k2) ==> k1 == k2,
        compressibility_tag_of(c1) == compressibility_tag_of(c2) ==> c1 == c2,
        completeness_tag_of(b1) == completeness_tag_of(b2) ==> b1 == b2,
{
    lemma_kind_tags_differ();
    reveal_strlit("never");
    reveal_strlit("lossless_only");
    reveal_strlit("reversible");
    reveal_strlit("aggressive");
    reveal_strlit("complete");
    reveal_strlit("truncated");
    let s = compressibility_tag_of(c1);
    let t = compressibility_tag_of(c2);
    if s == t {
        assert(s.len() == t.len());
        assert(s[0] == t[0]);
    }
    let u = completeness_tag_of(b1);
    let v = completeness_tag_of(b2);
    if u == v {
        assert(u.len() == v.len());
    }
}

// -------------------------------------------------------------------- rows

/// One row of the evidence table.
#[derive(Debug, Clone, PartialEq, Eq)]
pub struct EvidenceRow {
    pub id: u64,
    pub session_id: SessionId,
    pub workspace_id: WorkspaceId,
    pub task_id: Option<u64>,
    pub kind: String,
    pub revision: u64,
    pub provenance_json: String,
    pub compressibility: String,
    pub compression_json: String,
    pub retrieval_json: String,
    pub compact_json: String,
    pub backing_cas_hash: Option<String>,
    pub completeness: String,
    pub created_ms: i64,
}

/// The columns of a row that are encoded outside.
#[derive(Debug, Clone, PartialEq, Eq)]
pub struct EncodedColumns {
    pub provenance_json: String,
    pub compression_json: String,
    pub retrieval_json: String,
    pub compact_json: String,
}

/// The columns of a row that were decoded outside.
#[derive(Debug, Clone, PartialEq, Eq)]
pub struct DecodedColumns {
    pub provenance: ProvenanceSet,
    pub compression: CompressionRecord,
    pub retrieval: RetrievalPolicy,
    pub grammar: String,
    pub body: String,
    pub source_revision: Option<String>,
}

/// The row to insert for an envelope: its plain columns, the encoded ones, and
/// the recorded digest.
pub fn row_for(
    envelope: &EvidenceEnvelope,
    columns: EncodedColumns,
    plan: &BackingPlan,
    created_ms: i64,
) -> (r: EvidenceRow)
    ensures
        row_matches(r, envelope@, columns, *plan, created_ms),
{
    let backing_cas_hash: Option<String> = match plan.hash() {
        Some(d) => Some(digest::hex(&d)),
        None => None,
    };
    EvidenceRow {
        id: envelope.id.0,
        session_id: envelope.session_id,
        workspace_id: envelope.workspace_id,
        task_id: envelope.task_id,
        kind: kind_tag(envelope.kind).to_owned(),
        revision: 1,
        provenance_json: columns.provenance_json,
        compressibility: compressibility_tag(envelope.compressibility).to_owned(),
        compression_json: columns.compression_json,
        retrieval_json: columns.retrieval_json,
        compact_json: columns.compact_json,
        backing_cas_hash,
        completeness: completeness_tag(envelope.backing_completeness).to_owned(),
        created_ms,
    }
}

impl EncodedColumns {
    /// The same columns once more.
    pub fn duplicate(&self) -> (r: EncodedColumns)
        ensures
            r.provenance_json@ == self.provenance_json@,
            r.compression_json@ == self.compression_json@,
            r.retrieval_json@ == self.retrieval_json@,
            r.compact_json@ == self.compact_json@,
    {
        EncodedColumns {
            provenance_json: self.provenance_json.as_str().to_owned(),
            compression_json: self.compression_json.as_str().to_owned(),
            retrieval_json: self.retrieval_json.as_str().to_owned(),
            compact_json: self.compact_json.as_str().to_owned(),
        }
    }
}

/// The columns of `row` are those of the envelope under the plan.
pub open spec fn row_matches(
    row: EvidenceRow,
    env: types::EnvelopeView,
    columns: EncodedColumns,
    plan: BackingPlan,
    created_ms: i64,
) -> bool {
    &&& row.id == env.id
    &&& row.session_id.0 == env.session_id
    &&& row.workspace_id.0 == env.workspace_id
    &&& row.task_id == env.task_id
    &&& row.kind@ == compress::label_of(env.kind)
    &&& row.revision == 1
    &&& row.provenance_json@ == columns.provenance_json@
    &&& row.compression_json@ == columns.compression_json@
    &&& row.retrieval_json@ == columns.retrieval_json@
    &&& row.compact_json@ == columns.compact_json@
    &&& row.compressibility@ == compressibility_tag_of(env.compressibility)
    &&& row.completeness@ == completeness_tag_of(env.backing_completeness)
    &&& row.created_ms == created_ms
    &&& types::opt_text(row.backing_cas_hash) == (match plan.recorded() {
        Some(d) => Some(digest::hex_of(d)),
        None => None,
    })
}

/// `evidence <id> <column>: <what>`.
pub open spec fn column_text(id: u64, column: Seq<char>, what: Seq<char>) -> Seq<char> {
    "evidence "@ + text::decimal(id as nat) + " "@ + column + ": "@ + what
}

/// A column that does not decode.
pub fn column_error(id: u64, column: &str, what: &str) -> (r: EvidenceError)
    ensures
        r@ == types::ErrorView::Malformed(column_text(id, column@, what@)),
{
    let mut m: String = "evidence ".to_owned();
    text::push_decimal(&mut m, id);
    m.append(" ");
    m.append(column);
    m.append(": ");
    m.append(what);
    EvidenceError::Malformed(m)
}

/// What an unknown tag is answered.
pub open spec fn unknown_variant_text(tag: Seq<char>, expected: Seq<char>) -> Seq<char> {
    "unknown variant `"@ + tag + "`, expected "@ + expected
}

fn unknown_variant(tag: &str, expected: &str) -> (r: String)
    ensures
        r@ == unknown_variant_text(tag@, expected@),
{
    let mut m: String = "unknown variant `".to_owned();
    m.append(tag);
    m.append("`, expected ");
    m.append(expected);
    m
}

/// The kinds that a row may name.
pub open spec fn kind_choices() -> Seq<char> {
    "one of `diagnostic_set`, `test_report`, `search_results`, `file_map`, `diff`, `process_log`, `symbol_set`, `structured_rows`, `child_handoff`, `semantic_context`, `generic_text`"@
}

/// The compressibilities that a row may name.
pub open spec fn compressibility_choices() -> Seq<char> {
    "one of `never`, `lossless_only`, `reversible`, `aggressive`"@
}

/// The completenesses that a row may name.
pub open spec fn completeness_choices() -> Seq<char> {
    "`complete` or `truncated`"@
}

/// The tag is that of a kind.
pub open spec fn is_kind_tag(tag: Seq<char>) -> bool {
    exists|k: EvidenceKind| #[trigger] compress::label_of(k) == tag
}

/// The tag is that of a compressibility.
pub open spec fn is_compressibility_tag(tag: Seq<char>) -> bool {
    exists|c: Compressibility| #[trigger] compressibility_tag_of(c) == tag
}

/// The tag is that of a completeness.
pub open spec fn is_completeness_tag(tag: Seq<char>) -> bool {
    exists|c: BackingCompleteness| #[trigger] completeness_tag_of(c) == tag
}

/// Decodes the three tags of a row, in order.
pub fn decode_tags(row: &EvidenceRow) -> (r: Result<
    (EvidenceKind, Compressibility, BackingCompleteness),
    EvidenceError,
>)
    ensures
        r is Ok <==> is_kind_tag(row.kind@) && is_compressibility_tag(row.compressibility@)
            && is_completeness_tag(row.completeness@),
        r matches Ok(t) ==> compress::label_of(t.0) == row.kind@ && compressibility_tag_of(t.1)
            == row.compressibility@ && completeness_tag_of(t.2) == row.completeness@,
        r matches Err(e) ==> e@ == types::ErrorView::Malformed(
            if !is_kind_tag(row.kind@) {
                column_text(row.id, "kind"@, unknown_variant_text(row.kind@, kind_choices()))
            } else if !is_compressibility_tag(row.compressibility@) {
                column_text(
                    row.id,
                    "compressibility"@,
                    unknown_variant_text(row.compressibility@, compressibility_choices()),
                )
            } else {
                column_text(
                    row.id,
                    "completeness"@,
                    unknown_variant_text(row.completeness@, completeness_choices()),
                )
            },
        ),
{
    let kind: EvidenceKind = match kind_from_tag(row.kind.as_str()) {
        Some(k) => k,
        None => {
            let what: String = unknown_variant(
                row.kind.as_str(),
                "one of `diagnostic_set`, `test_report`, `search_results`, `file_map`, `diff`, `process_log`, `symbol_set`, `structured_rows`, `child_handoff`, `semantic_context`, `generic_text`",
            );
            return Err(column_error(row.id, "kind", what.as_str()));
        },
    };
    let compressibility: Compressibility = match compressibility_from_tag(
        row.compressibility.as_str(),
    ) {
        Some(c) => c,
        None => {
            let what: String = unknown_variant(
                row.compressibility.as_str(),
                "one of `never`, `lossless_only`, `reversible`, `aggressive`",
            );
            return Err(column_error(row.id, "compressibility", what.as_str()));
        },
    };
    let completeness: BackingCompleteness = match completeness_from_tag(
        row.completeness.as_str(),
    ) {
        Some(c) => c,
        None => {
            let what: String = unknown_variant(
                row.completeness.as_str(),
                "`complete` or `truncated`",
            );
            return Err(column_error(row.id, "completeness", what.as_str()));
        },
    };
    Ok((kind, compressibility, completeness))
}

/// The digest column of a row, decoded: absent, or the bytes that it writes, or
/// not a digest.
pub open spec fn backing_of_row(row: EvidenceRow) -> Result<Option<Seq<u8>>, Seq<char>> {
    match row.backing_cas_hash {
        None => Ok(None),
        Some(raw) => if digest::is_digest_text(text::lower(raw@)) {
            Ok(Some(digest::bytes_of(text::lower(raw@))))
        } else {
            Err("malformed evidence: "@ + digest::bad_digest_text(raw@))
        },
    }
}

/// The envelope that a row decodes to, given its decoded tags and columns.
pub open spec fn decoded_row(
    row: EvidenceRow,
    tags: (EvidenceKind, Compressibility, BackingCompleteness),
    columns: DecodedColumns,
) -> Result<types::EnvelopeView, types::ErrorView> {
    match backing_of_row(row) {
        Err(what) => Err(types::ErrorView::Malformed(column_text(row.id, "backing"@, what))),
        Ok(hash) => if (tags.1 == Compressibility::Reversible ==> hash is Some && tags.2
            == BackingCompleteness::Complete) && types::content_loss_has_digest(
            columns.compression,
        ) {
            Ok(
                types::EnvelopeView {
                    id: row.id,
                    kind: tags.0,
                    session_id: row.session_id.0,
                    workspace_id: row.workspace_id.0,
                    task_id: row.task_id,
                    source_revision: types::opt_text(columns.source_revision),
                    provenance: columns.provenance.entries@,
                    compressibility: tags.1,
                    grammar: columns.grammar@,
                    body: columns.body@,
                    backing_hash: hash,
                    backing_completeness: tags.2,
                    compression: columns.compression@,
                    retrieval: columns.retrieval,
                },
            )
        } else {
            Err(
                types::ErrorView::Malformed(
                    column_text(
                        row.id,
                        "envelope"@,
                        "evidence refused: "@ + types::broken_invariant(
                            tags.1,
                            hash is Some,
                            tags.2,
                        ),
                    ),
                ),
            )
        },
    }
}

/// Decodes one durable row back into a validated envelope. A row that cannot
/// produce one is refused, never completed by a guess.
pub fn envelope_from_row(
    row: &EvidenceRow,
    tags: (EvidenceKind, Compressibility, BackingCompleteness),
    columns: DecodedColumns,
) -> (r: Result<EvidenceEnvelope, EvidenceError>)
    ensures
        match decoded_row(*row, tags, columns) {
            Ok(v) => r matches Ok(e) && e@ == v && e.sound(),
            Err(v) => r matches Err(e) && e@ == v,
        },
{
    let backing_hash: Option<[u8; 32]> = match &row.backing_cas_hash {
        Some(raw) => match digest::decode_digest_hex(raw.as_str()) {
            Ok(d) => Some(d),
            Err(m) => {
                let mut what: String = "malformed evidence: ".to_owned();
                what.append(m.as_str());
                return Err(column_error(row.id, "backing", what.as_str()));
            },
        },
        None => None,
    };
    match EvidenceEnvelope::new(
        EvidenceId(row.id),
        tags.0,
        row.session_id,
        row.workspace_id,
        row.task_id,
        columns.source_revision,
        columns.provenance,
        tags.1,
        CompactRepresentation { grammar: columns.grammar, body: columns.body },
        backing_hash,
        tags.2,
        columns.compression,
        columns.retrieval,
    ) {
        Ok(e) => Ok(e),
        Err(e) => Err(column_error(row.id, "envelope", e.to_string().as_str())),
    }
}

/// The tags and the digest of a row are those that it was made from.
proof fn lemma_columns_read_back(
    envelope: types::EnvelopeView,
    row: EvidenceRow,
    plan: BackingPlan,
    tags: (EvidenceKind, Compressibility, BackingCompleteness),
)
    requires
        row.kind@ == compress::label_of(envelope.kind),
        row.compressibility@ == compressibility_tag_of(envelope.compressibility),
        row.completeness@ == completeness_tag_of(envelope.backing_completeness),
        types::opt_text(row.backing_cas_hash) == (match plan.recorded() {
            Some(d) => Some(digest::hex_of(d)),
            None => None,
        }),
        compress::label_of(tags.0) == row.kind@,
        compressibility_tag_of(tags.1) == row.compressibility@,
        completeness_tag_of(tags.2) == row.completeness@,
    ensures
        tags == (envelope.kind, envelope.compressibility, envelope.backing_completeness),
        backing_of_row(row) == Ok::<Option<Seq<u8>>, Seq<char>>(plan.recorded()),
{
    law_tags_are_distinct(
        tags.0,
        envelope.kind,
        tags.1,
        envelope.compressibility,
        tags.2,
        envelope.backing_completeness,
    );
    match plan.recorded() {
        Some(d) => {
            match plan {
                BackingPlan::Declared(h) => {
                    assert(d == (h->0)@);
                },
                BackingPlan::Dropped(h) => {
                    assert(d == h@);
                },
                BackingPlan::Stored(h) => {
                    assert(d == h@);
                },
            }
            assert(d.len() == 32);
            digest::law_hex_round_trip(d);
        },
        None => {},
    }
}

/// The decoded columns say what the envelope says.
pub open spec fn columns_of(columns: DecodedColumns, env: types::EnvelopeView) -> bool {
    &&& columns.provenance.entries@ == env.provenance
    &&& columns.compression@ == env.compression
    &&& columns.retrieval == env.retrieval
    &&& columns.grammar@ == env.grammar
    &&& columns.body@ == env.body
    &&& types::opt_text(columns.source_revision) == env.source_revision
}

/// What was inserted reads back: the row of an envelope, kept under its id, has
/// tags that decode, and with columns that decode to what was encoded it gives
/// the envelope as inserted.
pub proof fn law_row_reads_back(
    env: types::EnvelopeView,
    w: InsertView,
    backing: Option<Seq<u8>>,
    cap: nat,
    id: u64,
    row: EvidenceRow,
    tags: (EvidenceKind, Compressibility, BackingCompleteness),
    columns: DecodedColumns,
)
    requires
        w.envelope == env,
        plans(w.plan, env, backing, cap),
        row_matches(row, (types::EnvelopeView { id, ..env }), w.columns, w.plan, w.created_ms),
        columns_of(columns, env),
        inserted(w, id).sound(),
        compress::label_of(tags.0) == row.kind@,
        compressibility_tag_of(tags.1) == row.compressibility@,
        completeness_tag_of(tags.2) == row.completeness@,
    ensures
        is_kind_tag(row.kind@),
        is_compressibility_tag(row.compressibility@),
        is_completeness_tag(row.completeness@),
        decoded_row(row, tags, columns) == Ok::<types::EnvelopeView, types::ErrorView>(
            inserted(w, id),
        ),
{
    lemma_columns_read_back(env, row, w.plan, tags);
}

// ------------------------------------------------------------ scoped lookup

/// How many of the rows that refer to a digest are read to decide whether its
/// bytes may be read.
pub const DIGEST_ROWS: usize = 1024;

/// How many of them are read to find the same evidence again.
pub const SAME_EVIDENCE_ROWS: usize = 64;

/// One row that refers to a digest, as it was read.
#[derive(Debug)]
pub enum RowRead {
    /// The row went away after the index was read.
    Missing,
    /// The row could not be read or decoded.
    Broken(EvidenceError),
    Found(EvidenceEnvelope),
}

/// What a reader who presents a digest is answered.
#[derive(Debug)]
pub enum DigestAnswer {
    /// The bytes may be read on the strength of this row.
    Open(usize),
    /// The error of this row is the answer.
    Broken(usize),
    Refused(EvidenceError),
}

/// [`DigestAnswer`], seen through its views.
pub enum AnswerView {
    Open(int),
    Broken(int),
    Refused(types::ErrorView),
}

impl View for DigestAnswer {
    type V = AnswerView;

    open spec fn view(&self) -> AnswerView {
        match *self {
            DigestAnswer::Open(i) => AnswerView::Open(i as int),
            DigestAnswer::Broken(i) => AnswerView::Broken(i as int),
            DigestAnswer::Refused(e) => AnswerView::Refused(e@),
        }
    }
}

/// The answer over the rows from `i` on, after the last denial. A digest is an
/// index, not a capability: every row that refers to it is looked at in turn,
/// and the first one that the reader may see opens it.
pub open spec fn answer_from(
    rows: Seq<RowRead>,
    i: int,
    ctx: EvidenceAccessContext,
    denied: Option<types::ErrorView>,
    normalized: Seq<char>,
) -> AnswerView
    decreases rows.len() - i,
{
    if i >= rows.len() {
        AnswerView::Refused(
            match denied {
                Some(e) => e,
                None => types::ErrorView::AccessDenied(
                    "backing digest "@ + normalized + " has no envelope visible to this scope"@,
                ),
            },
        )
    } else {
        match rows[i] {
            RowRead::Missing => answer_from(rows, i + 1, ctx, denied, normalized),
            RowRead::Broken(_) => AnswerView::Broken(i),
            RowRead::Found(env) => if ctx.sees_envelope(env@) {
                AnswerView::Open(i)
            } else {
                answer_from(
                    rows,
                    i + 1,
                    ctx,
                    Some(types::ErrorView::AccessDenied(store::denial_text(env@, ctx))),
                    normalized,
                )
            },
        }
    }
}

/// The answer to a reader who presents a digest, over the rows that refer to it.
pub open spec fn answer_of(
    rows: Seq<RowRead>,
    ctx: EvidenceAccessContext,
    normalized: Seq<char>,
) -> AnswerView {
    if rows.len() == 0 {
        AnswerView::Refused(types::ErrorView::Malformed("unknown backing digest "@ + normalized))
    } else {
        answer_from(rows, 0, ctx, None, normalized)
    }
}

/// Decides whether a reader may read the bytes of a digest, over the rows that
/// refer to it, in order.
pub fn answer_digest(
    rows: &Vec<RowRead>,
    ctx: &EvidenceAccessContext,
    normalized: &str,
) -> (r: DigestAnswer)
    ensures
        r@ == answer_of(rows@, *ctx, normalized@),
{
    if rows.len() == 0 {
        let mut m: String = "unknown backing digest ".to_owned();
        m.append(normalized);
        return DigestAnswer::Refused(EvidenceError::Malformed(m));
    }
    let mut denied: Option<EvidenceError> = None;
    let mut i: usize = 0;
    while i < rows.len()
        invariant
            i <= rows.len(),
            answer_from(
                rows@,
                i as int,
                *ctx,
                match denied {
                    Some(e) => Some(e@),
                    None => None,
                },
                normalized@,
            ) == answer_from(rows@, 0, *ctx, None, normalized@),
        decreases rows.len() - i,
    {
        match &rows[i] {
            RowRead::Missing => {},
            RowRead::Broken(_) => {
                return DigestAnswer::Broken(i);
            },
            RowRead::Found(env) => match store::ensure_scope(env, ctx) {
                Ok(()) => {
                    return DigestAnswer::Open(i);
                },
                Err(e) => {
                    denied = Some(e);
                },
            },
        }
        i = i + 1;
    }
    match denied {
        Some(e) => DigestAnswer::Refused(e),
        None => {
            let mut m: String = "backing digest ".to_owned();
            m.append(normalized);
            m.append(" has no envelope visible to this scope");
            DigestAnswer::Refused(EvidenceError::AccessDenied(m))
        },
    }
}

/// The reader may see the row.
pub open spec fn shows(row: RowRead, ctx: EvidenceAccessContext) -> bool {
    row matches RowRead::Found(env) && ctx.sees_envelope(env@)
}

/// Knowing a digest opens nothing by itself: a reader is let through to the
/// bytes only by a row that the reader may see, and a reader who may see none
/// of the rows is never let through.
pub proof fn law_a_digest_is_no_capability(
    rows: Seq<RowRead>,
    ctx: EvidenceAccessContext,
    normalized: Seq<char>,
)
    ensures
        answer_of(rows, ctx, normalized) matches AnswerView::Open(i) ==> 0 <= i < rows.len()
            && shows(rows[i], ctx),
        (forall|k: int| 0 <= k < rows.len() ==> !shows(#[trigger] rows[k], ctx)) ==> !(answer_of(
            rows,
            ctx,
            normalized,
        ) is Open),
{
    lemma_answer_shows(rows, 0, ctx, None, normalized);
}

proof fn lemma_answer_shows(
    rows: Seq<RowRead>,
    i: int,
    ctx: EvidenceAccessContext,
    denied: Option<types::ErrorView>,
    normalized: Seq<char>,
)
    requires
        0 <= i,
    ensures
        answer_from(rows, i, ctx, denied, normalized) matches AnswerView::Open(k) ==> i <= k
            < rows.len() && shows(rows[k], ctx),
    decreases rows.len() - i,
{
    if i < rows.len() {
        match rows[i] {
            RowRead::Found(env) => {
                lemma_answer_shows(
                    rows,
                    i + 1,
                    ctx,
                    Some(types::ErrorView::AccessDenied(store::denial_text(env@, ctx))),
                    normalized,
                );
            },
            _ => {
                lemma_answer_shows(rows, i + 1, ctx, denied, normalized);
            },
        }
    }
}

/// An envelope is the same evidence as a producer is about to archive: same
/// kind and source revision, and visible to the producer.
pub open spec fn same_evidence(
    env: types::EnvelopeView,
    kind: EvidenceKind,
    source_revision: Option<Seq<char>>,
    ctx: EvidenceAccessContext,
) -> bool {
    env.kind == kind && env.source_revision == source_revision && ctx.sees_envelope(env)
}

/// The row is passed over by a producer who looks for the same evidence.
pub open spec fn passed_over(
    row: RowRead,
    kind: EvidenceKind,
    source_revision: Option<Seq<char>>,
    ctx: EvidenceAccessContext,
) -> bool {
    match row {
        RowRead::Missing => true,
        RowRead::Broken(_) => false,
        RowRead::Found(env) => !same_evidence(env@, kind, source_revision, ctx),
    }
}

/// The characters of an optional string.
pub open spec fn opt_str(s: Option<&str>) -> Option<Seq<char>> {
    match s {
        Some(s) => Some(s@),
        None => None,
    }
}

/// No row among the first `n` stops the producer.
pub open spec fn passed_by(
    rows: Seq<RowRead>,
    n: int,
    kind: EvidenceKind,
    source_revision: Option<Seq<char>>,
    ctx: EvidenceAccessContext,
) -> bool {
    forall|k: int| 0 <= k < n ==> passed_over(#[trigger] rows[k], kind, source_revision, ctx)
}

/// The first row, in order, that stops a producer who looks for the same
/// evidence: the evidence itself, or a row that could not be read. `None` where
/// the evidence is new.
pub fn find_same_evidence(
    rows: &Vec<RowRead>,
    kind: EvidenceKind,
    source_revision: Option<&str>,
    ctx: &EvidenceAccessContext,
) -> (r: Option<usize>)
    ensures
        ({
            let revision = opt_str(source_revision);
            match r {
                Some(i) => i < rows.len() && !passed_over(rows@[i as int], kind, revision, *ctx)
                    && passed_by(rows@, i as int, kind, revision, *ctx),
                None => passed_by(rows@, rows@.len() as int, kind, revision, *ctx),
            }
        }),
{
    let ghost revision = match source_revision {
        Some(s) => Some(s@),
        None => None,
    };
    let mut i: usize = 0;
    while i < rows.len()
        invariant
            i <= rows.len(),
            revision == (match source_revision {
                Some(s) => Some(s@),
                None => None,
            }),
            forall|k: int| 0 <= k < i ==> passed_over(#[trigger] rows@[k], kind, revision, *ctx),
        decreases rows.len() - i,
    {
        match &rows[i] {
            RowRead::Missing => {},
            RowRead::Broken(_) => {
                return Some(i);
            },
            RowRead::Found(env) => {
                let same_revision: bool = match (&env.source_revision, source_revision) {
                    (Some(a), Some(b)) => same_text(a.as_str(), b),
                    (None, None) => true,
                    _ => false,
                };
                if env.kind == kind && same_revision && store::ensure_scope(env, ctx).is_ok() {
                    return Some(i);
                }
            },
        }
        i = i + 1;
    }
    None
}

/// How a verified read of a blob ended.
#[derive(Debug, Clone, PartialEq, Eq)]
pub enum BlobRead {
    Bytes(Vec<u8>),
    /// No blob stands at the address.
    Missing,
    /// The blob is there and fails verification.
    Failed(String),
}

/// What a read of the blob of a row gives: the bytes, nothing where the backing
/// was dropped, and an error, never other content, where the blob is corrupt.
pub fn blob_outcome(normalized: &str, read: BlobRead) -> (r: Result<
    Option<Vec<u8>>,
    EvidenceError,
>)
    ensures
        match read {
            BlobRead::Bytes(b) => r == Ok::<Option<Vec<u8>>, EvidenceError>(Some(b)),
            BlobRead::Missing => r == Ok::<Option<Vec<u8>>, EvidenceError>(None),
            BlobRead::Failed(said) => r matches Err(e) && e@ == types::ErrorView::Malformed(
                "backing "@ + normalized@ + " failed verification: "@ + said@,
            ),
        },
{
    match read {
        BlobRead::Bytes(b) => Ok(Some(b)),
        BlobRead::Missing => Ok(None),
        BlobRead::Failed(said) => {
            let mut m: String = "backing ".to_owned();
            m.append(normalized);
            m.append(" failed verification: ");
            m.append(said.as_str());
            Err(EvidenceError::Malformed(m))
        },
    }
}

/// What reading a row gives: its envelope and, where the row records a digest
/// and its envelope is one whose bytes are kept, what its blob reads as.
pub open spec fn stored_of(
    env: types::EnvelopeView,
    recorded: Option<Seq<char>>,
    read: BlobRead,
) -> Result<store::StoredView, types::ErrorView> {
    if recorded is Some && store::retains(env, 0, 0) {
        match read {
            BlobRead::Bytes(b) => Ok(store::StoredView { envelope: env, backing: Some(b@) }),
            BlobRead::Missing => Ok(store::StoredView { envelope: env, backing: None }),
            BlobRead::Failed(said) => Err(
                types::ErrorView::Malformed(
                    "backing "@ + recorded->0 + " failed verification: "@ + said@,
                ),
            ),
        }
    } else {
        Ok(store::StoredView { envelope: env, backing: None })
    }
}

/// Puts what was read of a row together: its decoded envelope, the digest that
/// it records, in lower case, and how the blob of that digest reads.
pub fn stored_evidence(
    envelope: EvidenceEnvelope,
    recorded: Option<&str>,
    read: BlobRead,
) -> (r: Result<StoredEvidence, EvidenceError>)
    ensures
        store::read_view(r) == stored_of(envelope@, opt_str(recorded), read),
{
    match recorded {
        Some(normalized) => if reads_backing(&envelope, true) {
            match blob_outcome(normalized, read) {
                Ok(backing) => Ok(StoredEvidence { envelope, backing }),
                Err(e) => Err(e),
            }
        } else {
            Ok(StoredEvidence { envelope, backing: None })
        },
        None => Ok(StoredEvidence { envelope, backing: None }),
    }
}

/// What a read by digest gives once a row opened it: the bytes must be there.
pub fn opened_outcome(normalized: &str, read: BlobRead) -> (r: Result<Vec<u8>, EvidenceError>)
    ensures
        match read {
            BlobRead::Bytes(b) => r == Ok::<Vec<u8>, EvidenceError>(b),
            BlobRead::Missing => r matches Err(e) && e@ == types::ErrorView::Malformed(
                "backing "@ + normalized@ + " is recorded but its bytes are absent"@,
            ),
            BlobRead::Failed(said) => r matches Err(e) && e@ == types::ErrorView::Malformed(
                "backing "@ + normalized@ + " failed verification: "@ + said@,
            ),
        },
{
    match blob_outcome(normalized, read) {
        Ok(Some(b)) => Ok(b),
        Ok(None) => {
            let mut m: String = "backing ".to_owned();
            m.append(normalized);
            m.append(" is recorded but its bytes are absent");
            Err(EvidenceError::Malformed(m))
        },
        Err(e) => Err(e),
    }
}

/// The envelopes that the reader may see, in order.
pub open spec fn visible(rows: Seq<types::EnvelopeView>, ctx: EvidenceAccessContext) -> Seq<
    types::EnvelopeView,
>
    decreases rows.len(),
{
    if rows.len() == 0 {
        Seq::empty()
    } else if ctx.sees_envelope(rows.last()) {
        visible(rows.drop_last(), ctx).push(rows.last())
    } else {
        visible(rows.drop_last(), ctx)
    }
}

/// Keeps the envelopes that the reader may see.
pub fn visible_rows(rows: Vec<EvidenceEnvelope>, ctx: &EvidenceAccessContext) -> (r: Vec<
    EvidenceEnvelope,
>)
    ensures
        store::envelope_views(r@) == visible(store::envelope_views(rows@), *ctx),
{
    let ghost all = store::envelope_views(rows@);
    let mut out: Vec<EvidenceEnvelope> = Vec::new();
    let mut i: usize = 0;
    proof {
        assert(all.take(0) =~= Seq::empty());
        assert(store::envelope_views(out@) =~= Seq::empty());
    }
    while i < rows.len()
        invariant
            i <= rows.len(),
            all == store::envelope_views(rows@),
            store::envelope_views(out@) == visible(all.take(i as int), *ctx),
        decreases rows.len() - i,
    {
        let ghost before = out@;
        proof {
            assert(all.take(i as int + 1).drop_last() =~= all.take(i as int));
            assert(all.take(i as int + 1).last() == rows@[i as int]@);
        }
        if store::ensure_scope(&rows[i], ctx).is_ok() {
            let row: EvidenceEnvelope = rows[i].duplicate();
            out.push(row);
            proof {
                assert(store::envelope_views(out@) =~= store::envelope_views(before).push(row@));
            }
        }
        i = i + 1;
    }
    proof {
        assert(all.take(i as int) =~= all);
    }
    out
}

/// A newest-first page over fetched rows: what the reader may see of them. The
/// cursor passes the last fetched row, so a filtered page still makes progress.
pub fn page_of(rows: Vec<EvidenceEnvelope>, ctx: &EvidenceAccessContext) -> (r: EvidencePage)
    ensures
        store::envelope_views(r.rows@) == visible(store::envelope_views(rows@), *ctx),
        r.next_before == (if rows.len() == 0 {
            None
        } else {
            Some(rows@.last()@.id)
        }),
{
    let next_before: Option<u64> = if rows.len() == 0 {
        None
    } else {
        Some(rows[rows.len() - 1].id.0)
    };
    EvidencePage { rows: visible_rows(rows, ctx), next_before }
}

/// A listing never crosses the scope of its reader: what it shows of rows is
/// visible to the reader and among the rows.
pub proof fn law_listings_stay_in_scope(
    rows: Seq<types::EnvelopeView>,
    ctx: EvidenceAccessContext,
)
    ensures
        forall|i: int|
            0 <= i < visible(rows, ctx).len() ==> ctx.sees_envelope(
                #[trigger] visible(rows, ctx)[i],
            ) && rows.contains(visible(rows, ctx)[i]),
        forall|i: int|
            0 <= i < rows.len() && ctx.sees_envelope(#[trigger] rows[i]) ==> visible(
                rows,
                ctx,
            ).contains(rows[i]),
    decreases rows.len(),
{
    if rows.len() > 0 {
        let most = rows.drop_last();
        law_listings_stay_in_scope(most, ctx);
        let a = visible(most, ctx);
        let b = visible(rows, ctx);
        assert forall|i: int| 0 <= i < b.len() implies ctx.sees_envelope(#[trigger] b[i])
            && rows.contains(b[i]) by {
            if i < a.len() {
                assert(b[i] == a[i]);
                let k = choose|k: int| 0 <= k < most.len() && most[k] == a[i];
                assert(rows[k] == b[i]);
            } else {
                assert(b[i] == rows[rows.len() - 1]);
            }
        }
        assert forall|i: int| 0 <= i < rows.len() && ctx.sees_envelope(
            #[trigger] rows[i],
        ) implies b.contains(rows[i]) by {
            if i < most.len() {
                assert(most[i] == rows[i]);
                let k = choose|k: int| 0 <= k < a.len() && a[k] == rows[i];
                assert(b[k] == rows[i]);
            } else {
                assert(b[a.len() as int] == rows[i]);
            }
        }
    }
}

// ------------------------------------------------------------- archiving

/// The compact body of a text to archive.
pub open spec fn archive_body(kind: EvidenceKind, raw: Seq<char>) -> Seq<char> {
    match kind.policy() {
        Compressibility::Reversible => compress::structural_text(kind, raw),
        Compressibility::Aggressive => compress::aggressive_text(kind, raw),
        _ => raw,
    }
}

/// The digest of a text to archive, in hexadecimal.
pub fn archive_digest(raw: &str) -> (r: String)
    ensures
        r@ == digest::hex_of(digest::blake3_of(vstd::utf8::encode_utf8(raw@))),
{
    let d: [u8; 32] = digest::digest_bytes(raw.as_bytes());
    digest::hex(&d)
}

/// The compact body is longer than the cap.
pub open spec fn over_cap(e: EvidenceError, kind: EvidenceKind, raw: Seq<char>, cap: usize) -> bool {
    e matches EvidenceError::Oversized { max, actual } && max == cap && actual == text::byte_len(
        archive_body(kind, raw),
    )
}

/// The envelope holds the compacted text, for its producer, and is not stored
/// yet.
pub open spec fn archives(
    e: EvidenceEnvelope,
    session_id: SessionId,
    workspace_id: WorkspaceId,
    task_id: Option<u64>,
    kind: EvidenceKind,
    source_revision: Option<Seq<char>>,
    provenance: ProvenanceSource,
    raw: Seq<char>,
    cap: usize,
) -> bool {
    &&& e.sound()
    &&& compress::compacted(kind, kind.policy(), raw, e.compact, e.compression)
    &&& e@.id == 0
    &&& e@.kind == kind
    &&& e@.session_id == session_id.0
    &&& e@.workspace_id == workspace_id.0
    &&& e@.task_id == task_id
    &&& e@.source_revision == source_revision
    &&& e@.provenance == seq![provenance]
    &&& e@.compressibility == kind.policy()
    &&& e@.backing_hash == Some(digest::blake3_of(vstd::utf8::encode_utf8(raw)))
    &&& e@.backing_completeness == BackingCompleteness::Complete
    &&& e@.retrieval == (RetrievalPolicy {
        allow_ranges: true,
        allow_search: true,
        max_bytes: if cap > 4096 {
            cap
        } else {
            4096
        },
    })
}

/// Compacts one producer payload into an envelope that is not stored yet. The
/// compact body is bounded by `compact_body_cap`; the backing is the payload.
pub fn prepare_archive(
    session_id: SessionId,
    workspace_id: WorkspaceId,
    task_id: Option<u64>,
    kind: EvidenceKind,
    source_revision: Option<&str>,
    provenance: ProvenanceSource,
    raw: &str,
    compact_body_cap: usize,
) -> (r: Result<EvidenceEnvelope, EvidenceError>)
    ensures
        r is Ok <==> text::byte_len(archive_body(kind, raw@)) <= compact_body_cap,
        r matches Err(e) ==> over_cap(e, kind, raw@, compact_body_cap),
        r matches Ok(e) ==> archives(
            e,
            session_id,
            workspace_id,
            task_id,
            kind,
            opt_str(source_revision),
            provenance,
            raw@,
            compact_body_cap,
        ),
{
    let digest: [u8; 32] = digest::digest_bytes(raw.as_bytes());
    let (compact, record) = match compress::compress(&kind, BackingCompleteness::Complete, raw) {
        Ok(v) => v,
        Err(e) => {
            return Err(e);
        },
    };
    let n: usize = text::str_len(compact.body.as_str());
    if n > compact_body_cap {
        return Err(EvidenceError::Oversized { max: compact_body_cap, actual: n });
    }
    let max_bytes: usize = if compact_body_cap > 4096 {
        compact_body_cap
    } else {
        4096
    };
    let revision: Option<String> = match source_revision {
        Some(s) => Some(s.to_owned()),
        None => None,
    };
    let mut sources: Vec<ProvenanceSource> = Vec::new();
    sources.push(provenance);
    proof {
        assert(sources@ =~= seq![provenance]);
    }
    EvidenceEnvelope::new(
        EvidenceId(0),
        kind,
        session_id,
        workspace_id,
        task_id,
        revision,
        ProvenanceSet::new(sources),
        kind.default_compressibility(),
        compact,
        Some(digest),
        BackingCompleteness::Complete,
        record,
        RetrievalPolicy::new(true, true, max_bytes),
    )
}

/// What archiving a text comes to.
#[derive(Debug)]
pub enum ArchivePlan {
    /// The evidence of this row is the same: nothing is stored.
    Known(usize),
    /// The error of this row is the answer.
    Broken(usize),
    /// The envelope is inserted, with the text as its backing.
    Insert(EvidenceEnvelope),
    Refused(EvidenceError),
}

/// The plan is what archiving the text comes to, over the rows that refer to its
/// digest, in order.
pub open spec fn archive_planned(
    plan: ArchivePlan,
    rows: Seq<RowRead>,
    session_id: SessionId,
    workspace_id: WorkspaceId,
    task_id: Option<u64>,
    kind: EvidenceKind,
    revision: Option<Seq<char>>,
    provenance: ProvenanceSource,
    raw: Seq<char>,
    cap: usize,
) -> bool {
    let ctx = EvidenceAccessContext::of(session_id.0, workspace_id.0, task_id);
    match plan {
        ArchivePlan::Known(i) => {
            &&& i < rows.len()
            &&& passed_by(rows, i as int, kind, revision, ctx)
            &&& rows[i as int] matches RowRead::Found(env)
            &&& same_evidence(env@, kind, revision, ctx)
        },
        ArchivePlan::Broken(i) => {
            &&& i < rows.len()
            &&& passed_by(rows, i as int, kind, revision, ctx)
            &&& rows[i as int] is Broken
        },
        ArchivePlan::Insert(e) => {
            &&& passed_by(rows, rows.len() as int, kind, revision, ctx)
            &&& text::byte_len(archive_body(kind, raw)) <= cap
            &&& archives(
                e,
                session_id,
                workspace_id,
                task_id,
                kind,
                revision,
                provenance,
                raw,
                cap,
            )
        },
        ArchivePlan::Refused(e) => {
            &&& passed_by(rows, rows.len() as int, kind, revision, ctx)
            &&& text::byte_len(archive_body(kind, raw)) > cap
            &&& over_cap(e, kind, raw, cap)
        },
    }
}

/// Decides how a text is archived, over the rows that refer to its digest, in
/// order. The same text of the same kind and revision, visible to its producer, is
/// the same evidence: it is not stored twice.
pub fn plan_archive(
    rows: &Vec<RowRead>,
    session_id: SessionId,
    workspace_id: WorkspaceId,
    task_id: Option<u64>,
    kind: EvidenceKind,
    source_revision: Option<&str>,
    provenance: ProvenanceSource,
    raw: &str,
    compact_body_cap: usize,
) -> (r: ArchivePlan)
    ensures
        archive_planned(
            r,
            rows@,
            session_id,
            workspace_id,
            task_id,
            kind,
            opt_str(source_revision),
            provenance,
            raw@,
            compact_body_cap,
        ),
{
    let ctx: EvidenceAccessContext = EvidenceAccessContext::new(
        session_id.raw(),
        workspace_id.raw(),
        task_id,
    );
    if let Some(i) = find_same_evidence(rows, kind, source_revision, &ctx) {
        return match &rows[i] {
            RowRead::Broken(_) => ArchivePlan::Broken(i),
            _ => ArchivePlan::Known(i),
        };
    }
    match prepare_archive(
        session_id,
        workspace_id,
        task_id,
        kind,
        source_revision,
        provenance,
        raw,
        compact_body_cap,
    ) {
        Ok(e) => ArchivePlan::Insert(e),
        Err(e) => ArchivePlan::Refused(e),
    }
}

/// Archiving a text again finds what the first archiving stored: its row records
/// the digest of the text, and its envelope is the same evidence for the same
/// producer, kind and revision.
pub proof fn law_archiving_again_finds_the_same(
    e: EvidenceEnvelope,
    session_id: SessionId,
    workspace_id: WorkspaceId,
    task_id: Option<u64>,
    kind: EvidenceKind,
    source_revision: Option<Seq<char>>,
    provenance: ProvenanceSource,
    raw: Seq<char>,
    body_cap: usize,
    w: InsertView,
    id: u64,
    backing_cap: nat,
)
    requires
        archives(
            e,
            session_id,
            workspace_id,
            task_id,
            kind,
            source_revision,
            provenance,
            raw,
            body_cap,
        ),
        w.envelope == e@,
        plans(w.plan, e@, Some(vstd::utf8::encode_utf8(raw)), backing_cap),
    ensures
        w.plan.recorded() == Some(digest::blake3_of(vstd::utf8::encode_utf8(raw))),
        same_evidence(
            inserted(w, id),
            kind,
            source_revision,
            EvidenceAccessContext::of(session_id.0, workspace_id.0, task_id),
        ),
{
}

/// Archiving a text twice stores it once: where the first call was to insert, and
/// the envelope was inserted, the second call, over the rows of the first and the
/// new one, inserts nothing and answers with the envelope that the first call
/// gave.
pub proof fn law_archiving_twice_stores_once(
    rows: Seq<RowRead>,
    first: ArchivePlan,
    w: InsertView,
    backing_cap: nat,
    id: u64,
    stored: EvidenceEnvelope,
    second: ArchivePlan,
    session_id: SessionId,
    workspace_id: WorkspaceId,
    task_id: Option<u64>,
    kind: EvidenceKind,
    revision: Option<Seq<char>>,
    provenance: ProvenanceSource,
    raw: Seq<char>,
    cap: usize,
)
    requires
        first matches ArchivePlan::Insert(e) && w.envelope == e@,
        archive_planned(
            first,
            rows,
            session_id,
            workspace_id,
            task_id,
            kind,
            revision,
            provenance,
            raw,
            cap,
        ),
        plans(w.plan, w.envelope, Some(vstd::utf8::encode_utf8(raw)), backing_cap),
        stored@ == inserted(w, id),
        archive_planned(
            second,
            rows.push(RowRead::Found(stored)),
            session_id,
            workspace_id,
            task_id,
            kind,
            revision,
            provenance,
            raw,
            cap,
        ),
    ensures
        second matches ArchivePlan::Known(i) && i == rows.len() && rows.push(
            RowRead::Found(stored),
        )[i as int] == RowRead::Found(stored),
{
    let ctx = EvidenceAccessContext::of(session_id.0, workspace_id.0, task_id);
    let e = first->Insert_0;
    let after = rows.push(RowRead::Found(stored));
    law_archiving_again_finds_the_same(
        e,
        session_id,
        workspace_id,
        task_id,
        kind,
        revision,
        provenance,
        raw,
        cap,
        w,
        id,
        backing_cap,
    );
    assert(!passed_over(after[rows.len() as int], kind, revision, ctx));
    assert forall|k: int| 0 <= k < rows.len() implies passed_over(
        #[trigger] after[k],
        kind,
        revision,
        ctx,
    ) by {
        assert(after[k] == rows[k]);
    }
}

// ------------------------------------------------------------ store faults

/// How the table refused an operation.
#[derive(Debug, Clone, PartialEq, Eq)]
pub enum StoreFault {
    Conflict(String),
    /// A value of `actual` bytes, where `max` are allowed.
    Oversized { max: usize, actual: usize },
    Other(String),
}

/// A conflict is a refused write, never an overwrite; an oversized value stays
/// oversized; every other fault is malformed evidence.
pub fn store_fault(fault: StoreFault) -> (r: EvidenceError)
    ensures
        match fault {
            StoreFault::Conflict(m) => r == EvidenceError::Refused(m),
            StoreFault::Oversized { max, actual } => r == (EvidenceError::Oversized { max, actual }),
            StoreFault::Other(m) => r == EvidenceError::Malformed(m),
        },
{
    match fault {
        StoreFault::Conflict(m) => EvidenceError::Refused(m),
        StoreFault::Oversized { max, actual } => EvidenceError::Oversized { max, actual },
        StoreFault::Other(m) => EvidenceError::Malformed(m),
    }
}

// --------------------------------------------------------------- inserting

/// What an [`Insertion`] waits for.
#[derive(Debug, Clone, Copy, PartialEq, Eq, Structural)]
pub enum InsertStage {
    /// The blob.
    Blob,
    /// The row.
    Row,
    /// Nothing.
    Finished,
}

/// What came of an [`InsertStep`].
#[derive(Debug, Clone, PartialEq, Eq)]
pub enum InsertEvent {
    BlobStored,
    /// The blob was not stored; this is what the blob store says.
    BlobFailed { said: String },
    /// The row was inserted under this id.
    RowInserted { id: u64 },
    RowFailed(StoreFault),
}

/// What is to be done next.
#[derive(Debug)]
pub enum InsertStep {
    /// Store the presented bytes, under the digest of their content.
    PutBlob([u8; 32]),
    /// Insert this row.
    InsertRow(EvidenceRow),
    /// Done: the envelope as it was inserted.
    Done(EvidenceEnvelope),
    /// Done: refused.
    Failed(EvidenceError),
}

/// An insertion by its contents.
pub struct InsertView {
    pub envelope: types::EnvelopeView,
    pub columns: EncodedColumns,
    pub plan: BackingPlan,
    pub created_ms: i64,
    pub stage: InsertStage,
}

/// The insertion waits for the event.
pub open spec fn insert_awaited(stage: InsertStage, event: InsertEvent) -> bool {
    match event {
        InsertEvent::BlobStored | InsertEvent::BlobFailed { .. } => stage == InsertStage::Blob,
        InsertEvent::RowInserted { .. } | InsertEvent::RowFailed(_) => stage == InsertStage::Row,
    }
}

/// The step gives out the row of the envelope.
pub open spec fn gives_row(w: InsertView, step: InsertStep) -> bool {
    step matches InsertStep::InsertRow(row) && row_matches(
        row,
        w.envelope,
        w.columns,
        w.plan,
        w.created_ms,
    )
}

/// The envelope as it stands in the table under `id`.
pub open spec fn inserted(w: InsertView, id: u64) -> types::EnvelopeView {
    types::EnvelopeView {
        id,
        backing_hash: match w.plan.recorded() {
            Some(h) => Some(h),
            None => w.envelope.backing_hash,
        },
        ..w.envelope
    }
}

/// `step` is what the insertion does first.
pub open spec fn insert_first(w: InsertView, step: InsertStep) -> bool {
    match w.plan {
        BackingPlan::Stored(d) => w.stage == InsertStage::Blob && step == InsertStep::PutBlob(d),
        _ => w.stage == InsertStage::Row && gives_row(w, step),
    }
}

/// The event takes the insertion from `w` to `v`, with `step` next.
pub open spec fn insert_next(
    w: InsertView,
    event: InsertEvent,
    v: InsertView,
    step: InsertStep,
) -> bool {
    match event {
        InsertEvent::BlobStored => v == (InsertView { stage: InsertStage::Row, ..w }) && gives_row(
            w,
            step,
        ),
        InsertEvent::BlobFailed { said } => v == (InsertView { stage: InsertStage::Finished, ..w })
            && (step matches InsertStep::Failed(e) && e@ == types::ErrorView::Malformed(
            "backing cas put: "@ + said@,
        )),
        InsertEvent::RowInserted { id } => v == (InsertView { stage: InsertStage::Finished, ..w })
            && (step matches InsertStep::Done(env) && env@ == inserted(w, id)),
        InsertEvent::RowFailed(fault) => v == (InsertView { stage: InsertStage::Finished, ..w })
            && (step matches InsertStep::Failed(e) && e@ == match fault {
            StoreFault::Conflict(m) => types::ErrorView::Refused(m@),
            StoreFault::Oversized { max, actual } => types::ErrorView::Oversized { max, actual },
            StoreFault::Other(m) => types::ErrorView::Malformed(m@),
        }),
    }
}

/// The insertion of one envelope: first its blob, where one is to be stored,
/// then its row.
pub struct Insertion {
    envelope: EvidenceEnvelope,
    columns: EncodedColumns,
    plan: BackingPlan,
    created_ms: i64,
    stage: InsertStage,
}

impl View for Insertion {
    type V = InsertView;

    closed spec fn view(&self) -> InsertView {
        InsertView {
            envelope: self.envelope@,
            columns: self.columns,
            plan: self.plan,
            created_ms: self.created_ms,
            stage: self.stage,
        }
    }
}

impl Insertion {
    /// Starts the insertion of an envelope with its presented bytes, of which at
    /// most `cap` are stored; the second part says what is to be done first.
    pub fn begin(
        envelope: &EvidenceEnvelope,
        columns: EncodedColumns,
        backing: Option<&[u8]>,
        cap: usize,
        created_ms: i64,
    ) -> (r: (Insertion, InsertStep))
        ensures
            r.0@.envelope == envelope@,
            r.0@.columns == columns,
            r.0@.created_ms == created_ms,
            plans(
                r.0@.plan,
                envelope@,
                match backing {
                    Some(b) => Some(b@),
                    None => None,
                },
                cap as nat,
            ),
            insert_first(r.0@, r.1),
    {
        let plan: BackingPlan = plan_backing(envelope, backing, cap);
        let mut w: Insertion = Insertion {
            envelope: envelope.duplicate(),
            columns,
            plan,
            created_ms,
            stage: InsertStage::Row,
        };
        if let BackingPlan::Stored(d) = plan {
            w.stage = InsertStage::Blob;
            return (w, InsertStep::PutBlob(d));
        }
        let row: EvidenceRow = w.row();
        (w, InsertStep::InsertRow(row))
    }

    fn row(&self) -> (r: EvidenceRow)
        ensures
            row_matches(r, self@.envelope, self@.columns, self@.plan, self@.created_ms),
    {
        row_for(&self.envelope, self.columns.duplicate(), &self.plan, self.created_ms)
    }

    /// What the insertion waits for.
    pub fn stage(&self) -> (r: InsertStage)
        ensures
            r == self@.stage,
    {
        self.stage
    }

    /// Takes the event that the insertion waited for, and says what is to be
    /// done next.
    pub fn advance(&mut self, event: InsertEvent) -> (r: InsertStep)
        requires
            insert_awaited(old(self)@.stage, event),
        ensures
            insert_next(old(self)@, event, final(self)@, r),
    {
        match event {
            InsertEvent::BlobStored => {
                self.stage = InsertStage::Row;
                InsertStep::InsertRow(self.row())
            },
            InsertEvent::BlobFailed { said } => {
                self.stage = InsertStage::Finished;
                InsertStep::Failed(
                    EvidenceError::Malformed(text::cat2("backing cas put: ", said.as_str())),
                )
            },
            InsertEvent::RowInserted { id } => {
                self.stage = InsertStage::Finished;
                InsertStep::Done(as_inserted(&self.envelope, id, &self.plan))
            },
            InsertEvent::RowFailed(fault) => {
                self.stage = InsertStage::Finished;
                InsertStep::Failed(store_fault(fault))
            },
        }
    }
}

/// A row never stands without its blob: where bytes are stored for an envelope,
/// its row is given out only once the blob is there, and it records the digest
/// of the stored bytes.
pub proof fn law_a_row_follows_its_blob(
    w: InsertView,
    first: InsertStep,
    event: InsertEvent,
    v: InsertView,
    step: InsertStep,
    backing: Seq<u8>,
    cap: nat,
)
    requires
        plans(w.plan, w.envelope, Some(backing), cap),
        store::retains(w.envelope, backing.len(), cap),
        insert_first(w, first),
        insert_awaited(w.stage, event),
        insert_next(w, event, v, step),
    ensures
        !(first is InsertRow),
        step is InsertRow ==> event is BlobStored,
        step matches InsertStep::InsertRow(row) ==> types::opt_text(row.backing_cas_hash) == Some(
            digest::hex_of(digest::blake3_of(backing)),
        ),
{
}

/// What was inserted reads back with its bytes: the row of an envelope decodes
/// to the envelope under its id, with the digest that was recorded, and with the
/// blob store giving back what was put there (and nothing where nothing was put)
/// the evidence is that envelope and the bytes that were retained.
pub proof fn law_inserted_evidence_reads_back(
    env: types::EnvelopeView,
    w: InsertView,
    backing: Option<Seq<u8>>,
    cap: nat,
    id: u64,
    row: EvidenceRow,
    tags: (EvidenceKind, Compressibility, BackingCompleteness),
    columns: DecodedColumns,
    read: BlobRead,
)
    requires
        w.envelope == env,
        plans(w.plan, env, backing, cap),
        row_matches(row, (types::EnvelopeView { id, ..env }), w.columns, w.plan, w.created_ms),
        columns_of(columns, env),
        inserted(w, id).sound(),
        compress::label_of(tags.0) == row.kind@,
        compressibility_tag_of(tags.1) == row.compressibility@,
        completeness_tag_of(tags.2) == row.completeness@,
        match store::retained(env, backing, cap) {
            Some(b) => read matches BlobRead::Bytes(v) && v@ == b,
            None => read is Missing,
        },
    ensures
        decoded_row(row, tags, columns) == Ok::<types::EnvelopeView, types::ErrorView>(
            inserted(w, id),
        ),
        stored_of(inserted(w, id), types::opt_text(row.backing_cas_hash), read) == Ok::<
            store::StoredView,
            types::ErrorView,
        >(
            store::StoredView {
                envelope: inserted(w, id),
                backing: store::retained(env, backing, cap),
            },
        ),
        inserted(w, id) == (types::EnvelopeView {
            id,
            backing_hash: inserted(w, id).backing_hash,
            ..env
        }),
        store::retained(env, backing, cap) matches Some(b) ==> inserted(w, id).backing_hash
            == Some(digest::blake3_of(b)),
{
    law_row_reads_back(env, w, backing, cap, id, row, tags, columns);
}

/// What is done with presented bytes: kept under their digest where the evidence
/// may be reduced, they were captured whole and they fit; else dropped, with the
/// digest that the envelope declares, or else their own, recorded.
pub proof fn law_what_is_done_with_bytes(
    plan: BackingPlan,
    env: types::EnvelopeView,
    b: Seq<u8>,
    cap: nat,
)
    requires
        plans(plan, env, Some(b), cap),
    ensures
        ({
            let kept = (env.compressibility is Reversible || env.compressibility is Aggressive)
                && env.backing_completeness is Complete && b.len() <= cap;
            &&& kept ==> plan is Stored && plan.recorded() == Some(digest::blake3_of(b))
            &&& !kept && env.backing_hash is None ==> plan is Dropped && plan.recorded() == Some(
                digest::blake3_of(b),
            )
            &&& !kept && env.backing_hash is Some ==> plan is Dropped && plan.recorded()
                == env.backing_hash
        }),
{
}

/// Without bytes the row records what the envelope declares.
pub proof fn law_without_bytes_the_declared_digest_counts(
    plan: BackingPlan,
    env: types::EnvelopeView,
    cap: nat,
)
    requires
        plans(plan, env, None, cap),
    ensures
        plan is Declared,
        plan.recorded() == env.backing_hash,
{
}

/// The tags that a row carries.
pub proof fn law_the_tags_of_a_row(
    row: EvidenceRow,
    env: types::EnvelopeView,
    columns: EncodedColumns,
    plan: BackingPlan,
    created_ms: i64,
)
    requires
        row_matches(row, env, columns, plan, created_ms),
    ensures
        row.id == env.id,
        row.session_id.0 == env.session_id,
        row.workspace_id.0 == env.workspace_id,
        row.task_id == env.task_id,
        row.created_ms == created_ms,
        row.revision == 1,
        row.kind@ == compress::label_of(env.kind),
        row.provenance_json@ == columns.provenance_json@,
        row.compression_json@ == columns.compression_json@,
        row.retrieval_json@ == columns.retrieval_json@,
        row.compact_json@ == columns.compact_json@,
        env.compressibility is Never ==> row.compressibility@ == "never"@,
        env.compressibility is LosslessOnly ==> row.compressibility@ == "lossless_only"@,
        env.compressibility is Reversible ==> row.compressibility@ == "reversible"@,
        env.compressibility is Aggressive ==> row.compressibility@ == "aggressive"@,
        env.backing_completeness is Complete ==> row.completeness@ == "complete"@,
        env.backing_completeness is Truncated ==> row.completeness@ == "truncated"@,
        plan.recorded() is None ==> row.backing_cas_hash is None,
        plan.recorded() matches Some(d) ==> row.backing_cas_hash is Some
            && (row.backing_cas_hash->0)@ == digest::hex_of(d),
{
}

/// The first row that the reader may see opens the bytes, unless a row before it
/// could not be read; a reader who may see none is denied, and a digest that no
/// row refers to is unknown.
pub proof fn law_the_first_visible_row_opens(
    rows: Seq<RowRead>,
    ctx: EvidenceAccessContext,
    normalized: Seq<char>,
    n: int,
)
    requires
        0 <= n <= rows.len(),
        forall|i: int|
            0 <= i < n ==> (#[trigger] rows[i]) is Missing || (rows[i] matches RowRead::Found(env)
                && !ctx.sees_envelope(env@)),
    ensures
        n < rows.len() && shows(rows[n], ctx) ==> answer_of(rows, ctx, normalized)
            == AnswerView::Open(n),
        n < rows.len() && rows[n] is Broken ==> answer_of(rows, ctx, normalized)
            == AnswerView::Broken(n),
        n == rows.len() && n > 0 ==> (answer_of(rows, ctx, normalized) matches AnswerView::Refused(e)
            && e is AccessDenied),
        rows.len() == 0 ==> answer_of(rows, ctx, normalized) == AnswerView::Refused(
            types::ErrorView::Malformed("unknown backing digest "@ + normalized),
        ),
{
    lemma_answer_passes(rows, 0, n, ctx, None, normalized);
}

proof fn lemma_answer_passes(
    rows: Seq<RowRead>,
    i: int,
    n: int,
    ctx: EvidenceAccessContext,
    denied: Option<types::ErrorView>,
    normalized: Seq<char>,
)
    requires
        0 <= i <= n <= rows.len(),
        forall|k: int|
            i <= k < n ==> (#[trigger] rows[k]) is Missing || (rows[k] matches RowRead::Found(env)
                && !ctx.sees_envelope(env@)),
        denied matches Some(e) ==> e is AccessDenied,
    ensures
        n < rows.len() && shows(rows[n], ctx) ==> answer_from(rows, i, ctx, denied, normalized)
            == AnswerView::Open(n),
        n < rows.len() && rows[n] is Broken ==> answer_from(rows, i, ctx, denied, normalized)
            == AnswerView::Broken(n),
        n == rows.len() ==> (answer_from(rows, i, ctx, denied, normalized)
            matches AnswerView::Refused(e) && e is AccessDenied),
    decreases n - i,
{
    if i < n {
        assert(rows[i] is Missing || rows[i] is Found);
        match rows[i] {
            RowRead::Found(env) => {
                lemma_answer_passes(
                    rows,
                    i + 1,
                    n,
                    ctx,
                    Some(types::ErrorView::AccessDenied(store::denial_text(env@, ctx))),
                    normalized,
                );
            },
            _ => {
                lemma_answer_passes(rows, i + 1, n, ctx, denied, normalized);
            },
        }
    }
}

/// What counts as the same evidence: the kind, the revision and the scope must
/// agree. A row that is gone is passed over, and one that cannot be read is not.
pub proof fn law_what_is_the_same_evidence(
    row: RowRead,
    kind: EvidenceKind,
    revision: Option<Seq<char>>,
    ctx: EvidenceAccessContext,
)
    ensures
        row is Missing ==> passed_over(row, kind, revision, ctx),
        row is Broken ==> !passed_over(row, kind, revision, ctx),
        row matches RowRead::Found(env) ==> {
            &&& env@.kind != kind ==> passed_over(row, kind, revision, ctx)
            &&& env@.source_revision != revision ==> passed_over(row, kind, revision, ctx)
            &&& !ctx.sees_envelope(env@) ==> passed_over(row, kind, revision, ctx)
            &&& env@.kind == kind && env@.source_revision == revision && ctx.sees_envelope(env@)
                ==> !passed_over(row, kind, revision, ctx)
        },
{
}

/// An archived text is its producer's: it stands under the producer's session,
/// workspace and task, with the kind and the revision that were given and the one
/// source, and its backing is the text.
pub proof fn law_an_archived_text_is_its_producers(
    e: EvidenceEnvelope,
    session_id: SessionId,
    workspace_id: WorkspaceId,
    task_id: Option<u64>,
    kind: EvidenceKind,
    revision: Option<Seq<char>>,
    provenance: ProvenanceSource,
    raw: Seq<char>,
    cap: usize,
)
    requires
        archives(e, session_id, workspace_id, task_id, kind, revision, provenance, raw, cap),
    ensures
        e@.id == 0,
        e@.kind == kind,
        e@.session_id == session_id.0,
        e@.workspace_id == workspace_id.0,
        e@.task_id == task_id,
        e@.source_revision == revision,
        e@.provenance == seq![provenance],
        e@.compressibility == kind.policy(),
        e@.backing_hash == Some(digest::blake3_of(vstd::utf8::encode_utf8(raw))),
        e@.backing_completeness is Complete,
        e@.retrieval.allow_ranges,
        e@.retrieval.allow_search,
        e@.retrieval.max_bytes >= 4096,
        e@.retrieval.max_bytes >= cap,
        e@.retrieval.max_bytes == 4096 || e@.retrieval.max_bytes == cap,
        e@.body == archive_body(kind, raw),
        e@.sound(),
        kind is GenericText ==> e@.body == raw,
{
}

/// An insertion stores its blob first, where there is one, and its row then; what
/// fails ends it with the error, and what the table took is given as inserted.
pub proof fn law_an_insertion_goes_step_by_step(
    w: InsertView,
    event: InsertEvent,
    v: InsertView,
    step: InsertStep,
)
    requires
        insert_next(w, event, v, step),
    ensures
        v.envelope == w.envelope,
        v.columns == w.columns,
        v.plan == w.plan,
        v.created_ms == w.created_ms,
        event is BlobStored ==> v.stage is Row && step is InsertRow,
        !(event is BlobStored) ==> v.stage is Finished,
        event is BlobFailed ==> step is Failed,
        event matches InsertEvent::RowInserted { id } ==> step is Done && (step->Done_0)@.id == id
            && (step->Done_0)@.body == w.envelope.body && (step->Done_0)@.session_id
            == w.envelope.session_id,
        event matches InsertEvent::RowFailed(StoreFault::Conflict(m)) ==> step is Failed
            && (step->Failed_0)@ == types::ErrorView::Refused(m@),
        event matches InsertEvent::RowFailed(StoreFault::Other(m)) ==> step is Failed
            && (step->Failed_0)@ == types::ErrorView::Malformed(m@),
        event matches InsertEvent::RowFailed(StoreFault::Oversized { max, actual }) ==> step is Failed
            && (step->Failed_0)@ == (types::ErrorView::Oversized { max, actual }),
{
}

/// What an insertion begins with.
pub proof fn law_an_insertion_begins_with_its_blob(w: InsertView, step: InsertStep)
    requires
        insert_first(w, step),
    ensures
        w.plan matches BackingPlan::Stored(d) ==> step == InsertStep::PutBlob(d) && w.stage is Blob,
        !(w.plan is Stored) ==> step is InsertRow && w.stage is Row,
{
}

/// What a row reads as: with its bytes where its digest is recorded, its envelope
/// is one whose bytes are kept and the blob is there; without them where not; and
/// never with bytes that failed verification.
pub proof fn law_a_row_reads_with_its_bytes(
    env: types::EnvelopeView,
    recorded: Option<Seq<char>>,
    read: BlobRead,
)
    ensures
        ({
            let r = stored_of(env, recorded, read);
            let keeps = (env.compressibility is Reversible || env.compressibility is Aggressive)
                && env.backing_completeness is Complete;
            let whole = Ok::<store::StoredView, types::ErrorView>(
                store::StoredView { envelope: env, backing: None },
            );
            &&& recorded is None ==> r == whole
            &&& !keeps ==> r == whole
            &&& read is Missing ==> r == whole
            &&& recorded is Some && keeps ==> (read matches BlobRead::Bytes(b) ==> r == Ok::<
                store::StoredView,
                types::ErrorView,
            >(store::StoredView { envelope: env, backing: Some(b@) }))
            &&& recorded is Some && keeps && read is Failed ==> r is Err
        }),
{
}

/// A text whose compact body is longer than the cap is refused with both figures.
pub proof fn law_an_oversized_body_is_told(
    e: EvidenceError,
    kind: EvidenceKind,
    raw: Seq<char>,
    cap: usize,
)
    requires
        over_cap(e, kind, raw, cap),
    ensures
        e == (EvidenceError::Oversized { max: cap, actual: e->Oversized_actual }),
        e->Oversized_actual == vstd::utf8::encode_utf8(archive_body(kind, raw)).len(),
{
    text::lemma_byte_len_encode(archive_body(kind, raw));
}

/// An envelope that the reader may see.
pub open spec fn seen_by(ctx: EvidenceAccessContext) -> spec_fn(types::EnvelopeView) -> bool {
    |env: types::EnvelopeView| ctx.sees_envelope(env)
}

/// A listing shows what its reader may see of the rows, in their order.
pub proof fn law_a_listing_keeps_the_order(
    rows: Seq<types::EnvelopeView>,
    ctx: EvidenceAccessContext,
)
    ensures
        visible(rows, ctx) == rows.filter(seen_by(ctx)),
    decreases rows.len(),
{
    reveal(Seq::filter);
    if rows.len() > 0 {
        law_a_listing_keeps_the_order(rows.drop_last(), ctx);
    }
}

/// How many rows of a digest are read.
pub proof fn law_how_many_rows_are_read()
    ensures
        DIGEST_ROWS == 1024,
        SAME_EVIDENCE_ROWS == 64,
{
}

} // verus!

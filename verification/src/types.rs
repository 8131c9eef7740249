//! Core evidence types: identity, compression policy, provenance, compact
//! representations and the validated envelope.
//!
//! Two invariants are structural here:
//!
//! 1. A representation may only claim [`Compressibility::Reversible`] where a
//!    backing hash exists and the backing capture is
//!    [`BackingCompleteness::Complete`].
//! 2. A [`CompressionRecord`] that admits [`Lossiness::Content`] carries a
//!    `backing_digest`.
//!
//! [`EvidenceEnvelope::sound`] states both, and [`EvidenceEnvelope::new`]
//! returns an envelope exactly where they hold.
use std::str::FromStr;

use vstd::prelude::*;

use crate::ids::{SessionId, WorkspaceId};
use crate::text;

verus! {

/// Identifies one evidence envelope. Written as a plain `u64`.
#[derive(Debug, Clone, Copy, PartialEq, Eq, PartialOrd, Ord, Hash, Structural)]
pub struct EvidenceId(pub u64);

/// What an unreadable evidence id is answered.
pub open spec fn bad_id_text(s: Seq<char>) -> Seq<char> {
    text::debug_of(s) + " is not a plain u64 evidence id"@
}

impl EvidenceId {
    /// Strict parse of a plain `u64`: no sign but `+`, no white space, no radix
    /// prefix, no trailing characters, no overflow.
    pub fn parse(s: &str) -> (r: Result<EvidenceId, EvidenceError>)
        ensures
            match text::parsed(s@, u64::MAX as nat) {
                Some(v) => r == Ok::<EvidenceId, EvidenceError>(EvidenceId(v as u64)),
                None => r matches Err(EvidenceError::Malformed(m)) && m@ == bad_id_text(s@),
            },
    {
        let chars: Vec<char> = text::chars_of(s);
        match text::parse_unsigned(chars.as_slice(), u64::MAX) {
            Some(v) => Ok(EvidenceId(v)),
            None => {
                let mut m: String = text::debug_str(s);
                m.append(" is not a plain u64 evidence id");
                Err(EvidenceError::Malformed(m))
            },
        }
    }

    /// The id in decimal.
    pub fn to_string(&self) -> (r: String)
        ensures
            r@ == text::decimal(self.0 as nat),
    {
        let mut out: String = String::new();
        text::push_decimal(&mut out, self.0);
        proof {
            assert(Seq::<char>::empty() + text::decimal(self.0 as nat) =~= text::decimal(
                self.0 as nat,
            ));
        }
        out
    }
}

impl FromStr for EvidenceId {
    type Err = EvidenceError;

    fn from_str(s: &str) -> Result<Self, EvidenceError> {
        EvidenceId::parse(s)
    }
}

/// Typed evidence error.
#[derive(Debug, Clone, PartialEq, Eq)]
pub enum EvidenceError {
    /// Input could not be parsed into evidence state.
    Malformed(String),
    /// A bounded request or payload exceeded its explicit byte bound.
    Oversized { max: usize, actual: usize },
    /// The retrieval policy forbids the requested access mode.
    AccessDenied(String),
    /// The requested claim violates a hard evidence invariant.
    Refused(String),
}

impl EvidenceError {
    /// The text shown for the error.
    pub open spec fn shown(&self) -> Seq<char> {
        match self {
            EvidenceError::Malformed(m) => "malformed evidence: "@ + m@,
            EvidenceError::Oversized { max, actual } => "evidence oversized: "@ + text::decimal(
                *actual as nat,
            ) + " bytes exceeds the "@ + text::decimal(*max as nat) + " byte bound"@,
            EvidenceError::AccessDenied(m) => "evidence access denied: "@ + m@,
            EvidenceError::Refused(m) => "evidence refused: "@ + m@,
        }
    }

    /// The text shown for the error.
    pub fn to_string(&self) -> (r: String)
        ensures
            r@ == self.shown(),
    {
        let mut out: String = String::new();
        match self {
            EvidenceError::Malformed(m) => {
                out.append("malformed evidence: ");
                out.append(m.as_str());
            },
            EvidenceError::Oversized { max, actual } => {
                out.append("evidence oversized: ");
                text::push_decimal(&mut out, *actual as u64);
                out.append(" bytes exceeds the ");
                text::push_decimal(&mut out, *max as u64);
                out.append(" byte bound");
            },
            EvidenceError::AccessDenied(m) => {
                out.append("evidence access denied: ");
                out.append(m.as_str());
            },
            EvidenceError::Refused(m) => {
                out.append("evidence refused: ");
                out.append(m.as_str());
            },
        }
        proof {
            assert(out@ =~= self.shown());
        }
        out
    }
}

/// How aggressively the compact representation of one evidence kind may
/// compress.
#[derive(Debug, Clone, Copy, PartialEq, Eq, Hash, Structural)]
pub enum Compressibility {
    /// No compaction at all: bytes are carried verbatim.
    Never,
    /// Compaction must be bit-exact.
    LosslessOnly,
    /// Structure survives and can be re-expanded from backing.
    Reversible,
    /// Lossy structural compaction is permitted (never for policy inputs).
    Aggressive,
}

impl Compressibility {
    /// The compressibility of goal, criteria, policy and instruction payloads.
    pub fn for_policy_inputs() -> (r: Self)
        ensures
            r == Compressibility::Never,
    {
        Compressibility::Never
    }
}

/// What a compact representation loses relative to its backing.
#[derive(Debug, Clone, Copy, PartialEq, Eq, Hash, Structural)]
pub enum Lossiness {
    /// Bit-exact: the compact body re-expands to the backing bytes.
    Lossless,
    /// Structure preserved, incidental formatting or ordering dropped.
    Structured,
    /// Information was summarized or dropped (requires a backing digest).
    Content,
}

/// Whether the captured backing is the whole original or a bounded prefix.
#[derive(Debug, Clone, Copy, PartialEq, Eq, Hash, Structural)]
pub enum BackingCompleteness {
    /// The full original payload was captured.
    Complete,
    /// Capture was bounded: the backing is a truncated view of the original.
    Truncated,
}

/// Severity of one diagnostic entry carried inside evidence.
#[derive(Debug, Clone, Copy, PartialEq, Eq, Hash, Structural)]
pub enum Severity {
    /// Build, test or verification failure.
    Error,
    /// Non-fatal problem worth surfacing.
    Warning,
    /// Informational entry.
    Info,
}

/// The shape of the raw output the envelope was normalized from.
#[derive(Debug, Clone, Copy, PartialEq, Eq, Hash, Structural)]
pub enum EvidenceKind {
    /// Compiler or linter diagnostics (file, line, severity, message).
    DiagnosticSet,
    /// Test run report (suite, case, status, duration).
    TestReport,
    /// Retrieval or search hits (path, snippet, score).
    SearchResults,
    /// File map or repository outline entries.
    FileMap,
    /// Unified diff hunks.
    Diff,
    /// Process or tool log lines.
    ProcessLog,
    /// Symbol definitions and references.
    SymbolSet,
    /// Rows of structured records.
    StructuredRows,
    /// Handoff payload from a child agent or task.
    ChildHandoff,
    /// Semantically retrieved context.
    SemanticContext,
    /// Anything unstructured: opaque text without a known grammar.
    GenericText,
}

impl EvidenceKind {
    /// The compression policy of the kind: structured machine output may be
    /// compacted aggressively, diffs and handed-over context stay reversible,
    /// arbitrary text is only ever compacted losslessly.
    pub open spec fn policy(&self) -> Compressibility {
        match self {
            EvidenceKind::Diff | EvidenceKind::ChildHandoff | EvidenceKind::SemanticContext => {
                Compressibility::Reversible
            },
            EvidenceKind::GenericText => Compressibility::LosslessOnly,
            _ => Compressibility::Aggressive,
        }
    }

    /// The compression policy hardcoded for this kind.
    pub fn default_compressibility(&self) -> (r: Compressibility)
        ensures
            r == self.policy(),
    {
        match self {
            EvidenceKind::DiagnosticSet
            | EvidenceKind::TestReport
            | EvidenceKind::SearchResults
            | EvidenceKind::ProcessLog
            | EvidenceKind::SymbolSet
            | EvidenceKind::StructuredRows
            | EvidenceKind::FileMap => Compressibility::Aggressive,
            EvidenceKind::Diff | EvidenceKind::ChildHandoff | EvidenceKind::SemanticContext => {
                Compressibility::Reversible
            },
            EvidenceKind::GenericText => Compressibility::LosslessOnly,
        }
    }
}

/// Where evidence came from. Only user-authored policy may instruct.
#[derive(Debug, Clone, Copy, PartialEq, Eq, Hash, Structural)]
pub enum ProvenanceSource {
    /// User-authored goal, criteria, policy or instructions: the only source
    /// with instruction authority.
    UserPolicy,
    /// Output of a tool run.
    Tool,
    /// Repository content (files, git objects).
    Repository,
    /// Verification records.
    Verification,
    /// Model-generated content (plans, summaries).
    Model,
    /// External semantic provider output (embeddings, rerankers).
    SemanticProvider,
    /// Agent-coordination board content: data of a peer agent, never policy.
    AgentCoordination,
}

impl ProvenanceSource {
    /// True only for [`ProvenanceSource::UserPolicy`].
    pub fn is_instruction_authority(&self) -> (r: bool)
        ensures
            r == (*self == ProvenanceSource::UserPolicy),
    {
        matches!(self, ProvenanceSource::UserPolicy)
    }
}

/// The provenance attached to one envelope. An empty set means unknown
/// provenance, never user authority.
#[derive(Debug, Clone, PartialEq, Eq)]
pub struct ProvenanceSet {
    pub entries: Vec<ProvenanceSource>,
}

impl Default for ProvenanceSet {
    fn default() -> (r: Self)
        ensures
            r.entries@ == Seq::<ProvenanceSource>::empty(),
    {
        ProvenanceSet { entries: Vec::new() }
    }
}

impl ProvenanceSet {
    /// Some entry is user policy.
    pub open spec fn authoritative(&self) -> bool {
        self.entries@.contains(ProvenanceSource::UserPolicy)
    }

    pub fn new(entries: Vec<ProvenanceSource>) -> (r: Self)
        ensures
            r.entries@ == entries@,
    {
        ProvenanceSet { entries }
    }

    pub fn push(&mut self, source: ProvenanceSource)
        ensures
            final(self).entries@ == old(self).entries@.push(source),
    {
        self.entries.push(source);
    }

    pub fn is_empty(&self) -> (r: bool)
        ensures
            r == (self.entries@.len() == 0),
    {
        self.entries.len() == 0
    }

    pub fn len(&self) -> (r: usize)
        ensures
            r == self.entries@.len(),
    {
        self.entries.len()
    }

    /// True when any entry is an instruction authority.
    pub fn has_instruction_authority(&self) -> (r: bool)
        ensures
            r == self.authoritative(),
    {
        let mut i: usize = 0;
        while i < self.entries.len()
            invariant
                i <= self.entries.len(),
                forall|j: int| 0 <= j < i ==> self.entries@[j] != ProvenanceSource::UserPolicy,
            decreases self.entries.len() - i,
        {
            if self.entries[i].is_instruction_authority() {
                return true;
            }
            i = i + 1;
        }
        false
    }
}

/// One compression step applied to raw backing bytes.
#[derive(Debug, Clone, PartialEq, Eq)]
pub struct CompressionRecord {
    /// Algorithm name, for example `"zstd"` or `"identity"`.
    pub algorithm: String,
    /// Algorithm grammar or version, so compact bodies stay decodable.
    pub version: u32,
    /// Size of the original backing payload in bytes.
    pub original_bytes: u64,
    /// Size of the compact representation in bytes.
    pub compact_bytes: u64,
    /// What this step lost relative to the backing.
    pub lossiness: Lossiness,
    /// Digest of the backing bytes this record was produced from. Required
    /// where `lossiness` is [`Lossiness::Content`].
    pub backing_digest: Option<[u8; 32]>,
}

impl CompressionRecord {
    /// The no-compaction record: bytes are carried verbatim and losslessly.
    pub fn identity(original_bytes: u64) -> (r: Self)
        ensures
            r.algorithm@ == "identity"@,
            r.version == 1,
            r.original_bytes == original_bytes,
            r.compact_bytes == original_bytes,
            r.lossiness == Lossiness::Lossless,
            r.backing_digest is None,
    {
        CompressionRecord {
            algorithm: "identity".to_owned(),
            version: 1,
            original_bytes,
            compact_bytes: original_bytes,
            lossiness: Lossiness::Lossless,
            backing_digest: None,
        }
    }
}

/// A compact, grammar-tagged rendering of evidence.
#[derive(Debug, Clone, PartialEq, Eq)]
pub struct CompactRepresentation {
    /// Name and version of the grammar `body` is written in.
    pub grammar: String,
    /// The compact body itself.
    pub body: String,
}

/// How a compact representation may be accessed.
#[derive(Debug, Clone, Copy, PartialEq, Eq, Structural)]
pub struct RetrievalPolicy {
    /// Byte-range reads are permitted.
    pub allow_ranges: bool,
    /// Search retrieval is permitted.
    pub allow_search: bool,
    /// Hard ceiling for any single retrieval response, in bytes.
    pub max_bytes: usize,
}

impl RetrievalPolicy {
    pub fn new(allow_ranges: bool, allow_search: bool, max_bytes: usize) -> (r: Self)
        ensures
            r.allow_ranges == allow_ranges,
            r.allow_search == allow_search,
            r.max_bytes == max_bytes,
    {
        RetrievalPolicy { allow_ranges, allow_search, max_bytes }
    }

    /// Refuses search retrieval unless explicitly permitted.
    pub fn check_search(&self) -> (r: Result<(), EvidenceError>)
        ensures
            r is Ok <==> self.allow_search,
            r matches Err(e) ==> (e matches EvidenceError::AccessDenied(m) && m@
                == "search retrieval is not permitted for this envelope"@),
    {
        if self.allow_search {
            Ok(())
        } else {
            Err(
                EvidenceError::AccessDenied(
                    "search retrieval is not permitted for this envelope".to_owned(),
                ),
            )
        }
    }

    /// A ranged read of `requested` bytes is permitted.
    pub open spec fn admits_range(&self, requested: nat) -> bool {
        self.allow_ranges && requested <= self.max_bytes
    }

    /// Refuses ranged retrieval unless permitted, and any requested length
    /// above `max_bytes`.
    pub fn check_range(&self, requested_bytes: usize) -> (r: Result<(), EvidenceError>)
        ensures
            r is Ok <==> self.admits_range(requested_bytes as nat),
            r matches Err(e) ==> if !self.allow_ranges {
                e matches EvidenceError::AccessDenied(m) && m@
                    == "ranged retrieval is not permitted for this envelope"@
            } else {
                e == (EvidenceError::Oversized { max: self.max_bytes, actual: requested_bytes })
            },
    {
        if !self.allow_ranges {
            return Err(
                EvidenceError::AccessDenied(
                    "ranged retrieval is not permitted for this envelope".to_owned(),
                ),
            );
        }
        if requested_bytes > self.max_bytes {
            return Err(
                EvidenceError::Oversized { max: self.max_bytes, actual: requested_bytes },
            );
        }
        Ok(())
    }
}

/// A fully typed evidence package: what it is, who it belongs to, where it came
/// from, how it was compacted, and how it may be retrieved.
#[derive(Debug, Clone, PartialEq, Eq)]
pub struct EvidenceEnvelope {
    pub id: EvidenceId,
    pub kind: EvidenceKind,
    pub session_id: SessionId,
    pub workspace_id: WorkspaceId,
    pub task_id: Option<u64>,
    pub source_revision: Option<String>,
    pub provenance: ProvenanceSet,
    pub compressibility: Compressibility,
    pub compact: CompactRepresentation,
    pub backing_hash: Option<[u8; 32]>,
    pub backing_completeness: BackingCompleteness,
    pub compression: CompressionRecord,
    pub retrieval: RetrievalPolicy,
}

/// Reversibility is claimed only over a complete backing with a hash.
pub open spec fn reversible_is_backed(
    compressibility: Compressibility,
    backing_hash: Option<[u8; 32]>,
    completeness: BackingCompleteness,
) -> bool {
    compressibility == Compressibility::Reversible ==> backing_hash is Some && completeness
        == BackingCompleteness::Complete
}

/// Content loss is tied to backing bytes by a digest.
pub open spec fn content_loss_has_digest(compression: CompressionRecord) -> bool {
    compression.lossiness == Lossiness::Content ==> compression.backing_digest is Some
}

/// What the first broken invariant of an envelope is answered.
pub open spec fn broken_invariant(
    compressibility: Compressibility,
    has_hash: bool,
    completeness: BackingCompleteness,
) -> Seq<char> {
    if compressibility == Compressibility::Reversible && !has_hash {
        "Reversible evidence requires a backing hash"@
    } else if compressibility == Compressibility::Reversible && completeness
        != BackingCompleteness::Complete {
        "truncated backing can never claim Reversible"@
    } else {
        "Content lossiness requires a backing digest"@
    }
}

impl EvidenceEnvelope {
    /// The two invariants of an envelope.
    pub open spec fn sound(&self) -> bool {
        self@.sound()
    }

    /// Constructs an envelope where the invariants hold; every violation is
    /// [`EvidenceError::Refused`], never a silent downgrade.
    pub fn new(
        id: EvidenceId,
        kind: EvidenceKind,
        session_id: SessionId,
        workspace_id: WorkspaceId,
        task_id: Option<u64>,
        source_revision: Option<String>,
        provenance: ProvenanceSet,
        compressibility: Compressibility,
        compact: CompactRepresentation,
        backing_hash: Option<[u8; 32]>,
        backing_completeness: BackingCompleteness,
        compression: CompressionRecord,
        retrieval: RetrievalPolicy,
    ) -> (r: Result<Self, EvidenceError>)
        ensures
            r is Ok <==> reversible_is_backed(compressibility, backing_hash, backing_completeness)
                && content_loss_has_digest(compression),
            r matches Ok(e) ==> e.sound() && e == (EvidenceEnvelope {
                id,
                kind,
                session_id,
                workspace_id,
                task_id,
                source_revision,
                provenance,
                compressibility,
                compact,
                backing_hash,
                backing_completeness,
                compression,
                retrieval,
            }),
            r matches Err(e) ==> e@ == ErrorView::Refused(
                broken_invariant(compressibility, backing_hash is Some, backing_completeness),
            ),
    {
        if compressibility == Compressibility::Reversible {
            if backing_hash.is_none() {
                return Err(
                    EvidenceError::Refused(
                        "Reversible evidence requires a backing hash".to_owned(),
                    ),
                );
            }
            if backing_completeness != BackingCompleteness::Complete {
                return Err(
                    EvidenceError::Refused(
                        "truncated backing can never claim Reversible".to_owned(),
                    ),
                );
            }
        }
        if compression.lossiness == Lossiness::Content && compression.backing_digest.is_none() {
            return Err(
                EvidenceError::Refused("Content lossiness requires a backing digest".to_owned()),
            );
        }
        Ok(
            EvidenceEnvelope {
                id,
                kind,
                session_id,
                workspace_id,
                task_id,
                source_revision,
                provenance,
                compressibility,
                compact,
                backing_hash,
                backing_completeness,
                compression,
                retrieval,
            },
        )
    }
}

// ------------------------------------------------------------------- views

/// An error with its message as text.
pub enum ErrorView {
    Malformed(Seq<char>),
    Oversized { max: usize, actual: usize },
    AccessDenied(Seq<char>),
    Refused(Seq<char>),
}

impl View for EvidenceError {
    type V = ErrorView;

    open spec fn view(&self) -> ErrorView {
        match self {
            EvidenceError::Malformed(m) => ErrorView::Malformed(m@),
            EvidenceError::Oversized { max, actual } => ErrorView::Oversized {
                max: *max,
                actual: *actual,
            },
            EvidenceError::AccessDenied(m) => ErrorView::AccessDenied(m@),
            EvidenceError::Refused(m) => ErrorView::Refused(m@),
        }
    }
}

impl ErrorView {
    /// The text shown for the error.
    pub open spec fn shown(self) -> Seq<char> {
        match self {
            ErrorView::Malformed(m) => "malformed evidence: "@ + m,
            ErrorView::Oversized { max, actual } => "evidence oversized: "@ + text::decimal(
                actual as nat,
            ) + " bytes exceeds the "@ + text::decimal(max as nat) + " byte bound"@,
            ErrorView::AccessDenied(m) => "evidence access denied: "@ + m,
            ErrorView::Refused(m) => "evidence refused: "@ + m,
        }
    }
}

/// The view of an optional string.
pub open spec fn opt_text(s: Option<String>) -> Option<Seq<char>> {
    match s {
        Some(t) => Some(t@),
        None => None,
    }
}

/// The view of an optional digest.
pub open spec fn opt_digest(d: Option<[u8; 32]>) -> Option<Seq<u8>> {
    match d {
        Some(b) => Some(b@),
        None => None,
    }
}

/// A compression record, field by field.
#[verifier::ext_equal]
pub struct RecordView {
    pub algorithm: Seq<char>,
    pub version: u32,
    pub original_bytes: u64,
    pub compact_bytes: u64,
    pub lossiness: Lossiness,
    pub backing_digest: Option<Seq<u8>>,
}

impl View for CompressionRecord {
    type V = RecordView;

    open spec fn view(&self) -> RecordView {
        RecordView {
            algorithm: self.algorithm@,
            version: self.version,
            original_bytes: self.original_bytes,
            compact_bytes: self.compact_bytes,
            lossiness: self.lossiness,
            backing_digest: opt_digest(self.backing_digest),
        }
    }
}

/// An envelope, field by field.
#[verifier::ext_equal]
pub struct EnvelopeView {
    pub id: u64,
    pub kind: EvidenceKind,
    pub session_id: u64,
    pub workspace_id: u64,
    pub task_id: Option<u64>,
    pub source_revision: Option<Seq<char>>,
    pub provenance: Seq<ProvenanceSource>,
    pub compressibility: Compressibility,
    pub grammar: Seq<char>,
    pub body: Seq<char>,
    pub backing_hash: Option<Seq<u8>>,
    pub backing_completeness: BackingCompleteness,
    pub compression: RecordView,
    pub retrieval: RetrievalPolicy,
}

impl EnvelopeView {
    /// The envelope meets the invariants that [`EvidenceEnvelope::new`] holds it
    /// to.
    pub open spec fn sound(self) -> bool {
        &&& self.compressibility == Compressibility::Reversible ==> self.backing_hash is Some
            && self.backing_completeness == BackingCompleteness::Complete
        &&& self.compression.lossiness == Lossiness::Content
            ==> self.compression.backing_digest is Some
    }
}

impl View for EvidenceEnvelope {
    type V = EnvelopeView;

    open spec fn view(&self) -> EnvelopeView {
        EnvelopeView {
            id: self.id.0,
            kind: self.kind,
            session_id: self.session_id.0,
            workspace_id: self.workspace_id.0,
            task_id: self.task_id,
            source_revision: opt_text(self.source_revision),
            provenance: self.provenance.entries@,
            compressibility: self.compressibility,
            grammar: self.compact.grammar@,
            body: self.compact.body@,
            backing_hash: opt_digest(self.backing_hash),
            backing_completeness: self.backing_completeness,
            compression: self.compression@,
            retrieval: self.retrieval,
        }
    }
}

impl ProvenanceSet {
    /// A copy of the set.
    pub fn duplicate(&self) -> (r: ProvenanceSet)
        ensures
            r.entries@ == self.entries@,
    {
        let mut entries: Vec<ProvenanceSource> = Vec::new();
        let mut i: usize = 0;
        while i < self.entries.len()
            invariant
                i <= self.entries.len(),
                entries@ == self.entries@.take(i as int),
            decreases self.entries.len() - i,
        {
            proof {
                assert(self.entries@.take(i as int + 1) =~= self.entries@.take(i as int).push(
                    self.entries@[i as int],
                ));
            }
            entries.push(self.entries[i]);
            i = i + 1;
        }
        proof {
            assert(self.entries@.take(i as int) =~= self.entries@);
        }
        ProvenanceSet { entries }
    }
}

impl CompressionRecord {
    /// A copy of the record.
    pub fn duplicate(&self) -> (r: CompressionRecord)
        ensures
            r@ == self@,
    {
        CompressionRecord {
            algorithm: self.algorithm.clone(),
            version: self.version,
            original_bytes: self.original_bytes,
            compact_bytes: self.compact_bytes,
            lossiness: self.lossiness,
            backing_digest: self.backing_digest,
        }
    }
}

/// A copy of an optional string.
pub fn copy_opt(s: &Option<String>) -> (r: Option<String>)
    ensures
        opt_text(r) == opt_text(*s),
{
    match s {
        Some(t) => Some(t.clone()),
        None => None,
    }
}

impl EvidenceEnvelope {
    /// A copy of the envelope.
    pub fn duplicate(&self) -> (r: EvidenceEnvelope)
        ensures
            r@ == self@,
            r.sound() == self.sound(),
    {
        EvidenceEnvelope {
            id: self.id,
            kind: self.kind,
            session_id: self.session_id,
            workspace_id: self.workspace_id,
            task_id: self.task_id,
            source_revision: copy_opt(&self.source_revision),
            provenance: self.provenance.duplicate(),
            compressibility: self.compressibility,
            compact: CompactRepresentation {
                grammar: self.compact.grammar.clone(),
                body: self.compact.body.clone(),
            },
            backing_hash: self.backing_hash,
            backing_completeness: self.backing_completeness,
            compression: self.compression.duplicate(),
            retrieval: self.retrieval,
        }
    }
}

// -------------------------------------------------------------------- laws

/// An id reads back from its number in decimal, and nothing but digits is one.
pub proof fn law_ids_read_back(n: u64)
    ensures
        text::parsed(text::decimal(n as nat), u64::MAX as nat) == Some(n as nat),
{
    text::law_decimals_read_back(n as nat, u64::MAX as nat);
}

/// Reversible evidence names a digest of a backing that was captured whole, and
/// evidence that lost content names the digest of what it lost it from; any other
/// envelope is sound.
pub proof fn law_which_envelopes_are_sound(env: EnvelopeView)
    ensures
        env.compressibility is Reversible && env.backing_hash is None ==> !env.sound(),
        env.compressibility is Reversible && env.backing_completeness is Truncated ==> !env.sound(),
        env.compression.lossiness is Content && env.compression.backing_digest is None
            ==> !env.sound(),
        !(env.compressibility is Reversible) && !(env.compression.lossiness is Content)
            ==> env.sound(),
        env.backing_hash is Some && env.backing_completeness is Complete
            && env.compression.backing_digest is Some ==> env.sound(),
{
}

/// The parts of an envelope are what its view holds.
pub proof fn law_an_envelope_is_its_parts(env: EvidenceEnvelope)
    ensures
        env@.id == env.id.0,
        env@.kind == env.kind,
        env@.session_id == env.session_id.0,
        env@.workspace_id == env.workspace_id.0,
        env@.task_id == env.task_id,
        env.source_revision is None ==> env@.source_revision is None,
        env.source_revision matches Some(s) ==> env@.source_revision == Some(s@),
        env@.provenance == env.provenance.entries@,
        env@.compressibility == env.compressibility,
        env@.grammar == env.compact.grammar@,
        env@.body == env.compact.body@,
        env.backing_hash is None ==> env@.backing_hash is None,
        env.backing_hash matches Some(h) ==> env@.backing_hash == Some(h@),
        env@.backing_completeness == env.backing_completeness,
        env@.retrieval == env.retrieval,
        env@.compression.algorithm == env.compression.algorithm@,
        env@.compression.original_bytes == env.compression.original_bytes,
        env@.compression.compact_bytes == env.compression.compact_bytes,
        env@.compression.lossiness == env.compression.lossiness,
        env.compression.backing_digest matches Some(h) ==> env@.compression.backing_digest == Some(
            h@,
        ),
{
}

/// An error is shown by what kind it is and by what it says.
pub proof fn law_errors_are_shown_by_their_kind(m: Seq<char>, max: usize, actual: usize)
    ensures
        ErrorView::Malformed(m).shown() == "malformed evidence: "@ + m,
        ErrorView::AccessDenied(m).shown() == "evidence access denied: "@ + m,
        ErrorView::Refused(m).shown() == "evidence refused: "@ + m,
        (ErrorView::Oversized { max, actual }).shown() == "evidence oversized: "@ + text::decimal(
            actual as nat,
        ) + " bytes exceeds the "@ + text::decimal(max as nat) + " byte bound"@,
{
}

/// A range is admitted exactly where ranges are allowed and it is no longer than
/// the policy's ceiling.
pub proof fn law_a_longer_range_is_not_admitted(policy: RetrievalPolicy, n: nat)
    ensures
        policy.allow_ranges && n <= policy.max_bytes ==> policy.admits_range(n),
        !policy.allow_ranges ==> !policy.admits_range(n),
        n > policy.max_bytes ==> !policy.admits_range(n),
{
}

/// An error is shown as its view is.
pub proof fn law_an_error_is_shown_as_it_is(e: EvidenceError)
    ensures
        e.shown() == e@.shown(),
        e matches EvidenceError::Malformed(m) ==> e@ == ErrorView::Malformed(m@),
        e matches EvidenceError::AccessDenied(m) ==> e@ == ErrorView::AccessDenied(m@),
        e matches EvidenceError::Refused(m) ==> e@ == ErrorView::Refused(m@),
        e matches EvidenceError::Oversized { max, actual } ==> e@ == (ErrorView::Oversized {
            max,
            actual,
        }),
{
}

/// An envelope that is not sound is refused for the first rule that it breaks: a
/// missing digest, then a cut backing, then lost content without a digest.
pub proof fn law_the_first_broken_rule_is_named(
    compressibility: Compressibility,
    completeness: BackingCompleteness,
)
    ensures
        compressibility is Reversible ==> broken_invariant(compressibility, false, completeness)
            == "Reversible evidence requires a backing hash"@,
        compressibility is Reversible && completeness is Truncated ==> broken_invariant(
            compressibility,
            true,
            completeness,
        ) == "truncated backing can never claim Reversible"@,
        !(compressibility is Reversible) ==> broken_invariant(compressibility, true, completeness)
            == "Content lossiness requires a backing digest"@,
{
}

} // verus!

//! Merging one approved change into a tree, guarded on both sides.
//!
//! A change is applied only where the source still holds what was staged and
//! the destination still holds what it held at the base snapshot. Applying it
//! once more is no error.
use vstd::prelude::*;

use crate::atomic::FileState;
use crate::atomic;
use crate::digest::FileHash;
use crate::digest;
use crate::error::{Error, ErrorKind, PathText};
use crate::error;
use crate::text;
use crate::workspace::{check_identity, io_error, FileIdentity};
use crate::workspace;

verus! {

/// The largest file that is merged.
pub const MAX_MERGE_FILE_BYTES: u64 = 268435456;

/// What came of a merge.
#[derive(Debug, Clone, Copy, PartialEq, Eq, Structural)]
pub enum CasMergeResult {
    /// The change was made now.
    Applied,
    /// The destination was already as the change leaves it.
    AlreadyCurrent,
}

/// What follows from the state of the destination.
#[derive(Debug, Clone, Copy, PartialEq, Eq, Structural)]
pub enum MergeStart {
    /// Nothing is left to do.
    AlreadyCurrent,
    /// The source is to be read.
    ReadSource,
}

/// How the content is to be written.
#[derive(Debug, Clone, PartialEq, Eq)]
pub enum MergeWrite {
    /// Over a file in this state.
    Replace(FileState),
    /// Where there is none.
    Create,
}

/// One approved change of a file's content.
#[derive(Debug, Clone, PartialEq, Eq)]
pub struct ContentMerge {
    /// The destination and the source, resolved.
    pub dst: PathText,
    pub src: PathText,
    /// The source, as the caller names it.
    pub src_rel: PathText,
    /// The digest of the source when it was staged.
    pub expected_src: FileHash,
    /// The digest of the destination at the base snapshot, if it was there.
    pub expected_dst: Option<FileHash>,
}

/// What is known of the destination decides as follows. `src` and `base` are the
/// digests expected of the source and of the destination.
pub open spec fn merge_start(
    dst: Seq<char>,
    src: Seq<u8>,
    base: Option<Seq<u8>>,
    state: atomic::StateView,
) -> Result<MergeStart, error::FaultView> {
    match base {
        None => if !state.exists {
            Ok(MergeStart::ReadSource)
        } else if state.digest == Some(src) {
            Ok(MergeStart::AlreadyCurrent)
        } else {
            Err(
                error::fault(
                    ErrorKind::Conflict,
                    dst
                        + " exists although the base snapshot had no such file (parent-side creation conflicts with the merge)"@,
                ),
            )
        },
        Some(base) => if !state.exists {
            Err(
                error::fault(
                    ErrorKind::Conflict,
                    dst
                        + " vanished after the base snapshot; refusing to recreate it from a stale patch"@,
                ),
            )
        } else {
            match state.digest {
                None => Err(
                    error::fault(
                        ErrorKind::Conflict,
                        dst + " is not a readable file; refusing to overwrite it"@,
                    ),
                ),
                Some(cur) => if cur == src {
                    Ok(MergeStart::AlreadyCurrent)
                } else if cur != base {
                    Err(
                        error::fault(
                            ErrorKind::Conflict,
                            dst + " changed since the base snapshot (expected "@ + digest::hex_of(
                                base,
                            ) + ", found "@ + digest::hex_of(cur)
                                + "); the parent file was not touched"@,
                        ),
                    )
                } else {
                    Ok(MergeStart::ReadSource)
                },
            }
        },
    }
}

/// The error for a file that is too large to be merged.
pub open spec fn size_fault(rel: Seq<char>, len: u64) -> error::FaultView {
    error::fault(
        ErrorKind::Oversized,
        "merge file "@ + rel + " has "@ + text::decimal(len as nat)
            + " bytes (cap 268435456); refusing to merge it whole"@,
    )
}

/// The error for a source that is not what was staged.
pub open spec fn drift_fault(src: Seq<char>, expected: Seq<u8>, found: Seq<u8>) -> error::FaultView {
    error::fault(
        ErrorKind::Conflict,
        src + " drifted since it was staged (expected "@ + digest::hex_of(expected) + ", found "@
            + digest::hex_of(found) + "); nothing was merged"@,
    )
}

/// What a conflict of a replacement says behind its opening words.
pub open spec fn without_opening(message: Seq<char>) -> Seq<char> {
    if text::starts(message, "cas mismatch; "@) {
        message.skip("cas mismatch; "@.len() as int)
    } else {
        message
    }
}

/// The error for content that could not be written.
pub open spec fn write_fault(dst: Seq<char>, replacing: bool, f: error::FaultView) -> error::FaultView {
    if f.kind != ErrorKind::Conflict {
        f
    } else if replacing {
        error::fault(ErrorKind::Conflict, dst + ": "@ + without_opening(f.message))
    } else {
        error::fault(
            ErrorKind::Conflict,
            dst + " appeared since the base snapshot; the merge did not overwrite it"@,
        )
    }
}

/// The error with the words `what` and the path in front of its text.
pub fn recheck_error(what: &str, dst: &PathText, e: Error) -> (r: Error)
    ensures
        r@ == error::fault(e@.kind, what@ + dst.shown@ + ": "@ + e@.message),
{
    Error::new(e.kind, text::cat4(what, dst.shown.as_str(), ": ", e.message.as_str()))
}

impl ContentMerge {
    /// Decides from the state of the destination.
    pub fn start(&self, state: &FileState) -> (r: Result<MergeStart, Error>)
        ensures
            match merge_start(
                self.dst.shown@,
                self.expected_src@,
                digest::opt_hash(self.expected_dst),
                state@,
            ) {
                Ok(s) => r == Ok::<MergeStart, Error>(s),
                Err(f) => r matches Err(e) && e@ == f,
            },
    {
        let current: bool = match &state.digest {
            Some(cur) => cur.same(&self.expected_src),
            None => false,
        };
        match &self.expected_dst {
            None => if !state.exists {
                Ok(MergeStart::ReadSource)
            } else if current {
                Ok(MergeStart::AlreadyCurrent)
            } else {
                Err(
                    Error::conflict(
                        text::cat2(
                            self.dst.shown.as_str(),
                            " exists although the base snapshot had no such file (parent-side creation conflicts with the merge)",
                        ),
                    ),
                )
            },
            Some(base) => if !state.exists {
                Err(
                    Error::conflict(
                        text::cat2(
                            self.dst.shown.as_str(),
                            " vanished after the base snapshot; refusing to recreate it from a stale patch",
                        ),
                    ),
                )
            } else {
                match &state.digest {
                    None => Err(
                        Error::conflict(
                            text::cat2(
                                self.dst.shown.as_str(),
                                " is not a readable file; refusing to overwrite it",
                            ),
                        ),
                    ),
                    Some(cur) => if current {
                        Ok(MergeStart::AlreadyCurrent)
                    } else if !cur.same(base) {
                        let mut m: String = text::cat5(
                            self.dst.shown.as_str(),
                            " changed since the base snapshot (expected ",
                            base.to_hex().as_str(),
                            ", found ",
                            cur.to_hex().as_str(),
                        );
                        m.append("); the parent file was not touched");
                        Err(Error::conflict(m))
                    } else {
                        Ok(MergeStart::ReadSource)
                    },
                }
            },
        }
    }

    /// Accepts a source of `len` bytes.
    pub fn check_size(&self, len: u64) -> (r: Result<(), Error>)
        ensures
            r is Ok <==> len <= MAX_MERGE_FILE_BYTES,
            r matches Err(e) ==> e@ == size_fault(self.src_rel.quoted@, len),
    {
        if len <= MAX_MERGE_FILE_BYTES {
            return Ok(());
        }
        Err(
            Error::oversized(
                text::cat5(
                    "merge file ",
                    self.src_rel.quoted.as_str(),
                    " has ",
                    text::decimal_text(len).as_str(),
                    " bytes (cap 268435456); refusing to merge it whole",
                ),
            ),
        )
    }

    /// Accepts the content of the source where it is what was staged, and says
    /// how it is to be written.
    pub fn check_source(&self, bytes: &[u8]) -> (r: Result<MergeWrite, Error>)
        ensures
            r is Ok <==> digest::blake3_of(bytes@) == self.expected_src@,
            r matches Err(e) ==> e@ == drift_fault(
                self.src.shown@,
                self.expected_src@,
                digest::blake3_of(bytes@),
            ),
            r matches Ok(w) ==> match (w, self.expected_dst) {
                (MergeWrite::Replace(state), Some(base)) => state@ == (atomic::StateView {
                    exists: true,
                    size: None,
                    digest: Some(base@),
                    modified_ms: None,
                }),
                (MergeWrite::Create, None) => true,
                _ => false,
            },
    {
        let found: FileHash = FileHash::of(bytes);
        if !found.same(&self.expected_src) {
            let mut m: String = text::cat5(
                self.src.shown.as_str(),
                " drifted since it was staged (expected ",
                self.expected_src.to_hex().as_str(),
                ", found ",
                found.to_hex().as_str(),
            );
            m.append("); nothing was merged");
            return Err(Error::conflict(m));
        }
        match self.expected_dst {
            Some(base) => Ok(
                MergeWrite::Replace(
                    FileState { exists: true, size: None, digest: Some(base), modified_ms: None },
                ),
            ),
            None => Ok(MergeWrite::Create),
        }
    }

    /// The error for content that could not be written.
    pub fn write_error(&self, e: Error) -> (r: Error)
        ensures
            r@ == write_fault(self.dst.shown@, self.expected_dst is Some, e@),
    {
        if e.kind != ErrorKind::Conflict {
            return e;
        }
        if self.expected_dst.is_none() {
            return Error::conflict(
                text::cat2(
                    self.dst.shown.as_str(),
                    " appeared since the base snapshot; the merge did not overwrite it",
                ),
            );
        }
        let chars: Vec<char> = text::chars_of(e.message.as_str());
        let opening: Vec<char> = text::chars_of("cas mismatch; ");
        let rest: String = if text::starts_with_chars(chars.as_slice(), opening.as_slice()) {
            let tail: &[char] = vstd::slice::slice_subrange(
                chars.as_slice(),
                opening.len(),
                chars.len(),
            );
            proof {
                assert(tail@ =~= e@.message.skip("cas mismatch; "@.len() as int));
            }
            text::string_of(tail)
        } else {
            e.message
        };
        Error::conflict(text::cat3(self.dst.shown.as_str(), ": ", rest.as_str()))
    }
}

/// A destination that holds neither its content of the base snapshot nor the
/// change is never written: whatever it holds, the merge is a conflict.
pub proof fn law_a_moved_destination_is_never_overwritten(
    dst: Seq<char>,
    src: Seq<u8>,
    base: Option<Seq<u8>>,
    state: atomic::StateView,
)
    requires
        state.digest != Some(src) || !state.exists,
        base matches Some(b) ==> !state.exists || state.digest != Some(b),
        base is None ==> state.exists,
    ensures
        merge_start(dst, src, base, state) matches Err(f) && f.kind == ErrorKind::Conflict,
{
}

/// Where the destination already holds the change, applying it once more is no
/// error and writes nothing.
pub proof fn law_merging_again_is_no_error(
    dst: Seq<char>,
    src: Seq<u8>,
    base: Option<Seq<u8>>,
    state: atomic::StateView,
)
    requires
        state.exists,
        state.digest == Some(src),
    ensures
        merge_start(dst, src, base, state) == Ok::<MergeStart, error::FaultView>(
            MergeStart::AlreadyCurrent,
        ),
{
}

// ------------------------------------------------------------------ deletion

/// What the state of the destination decides of a deletion: whether there is a
/// file to be removed.
pub open spec fn delete_start(
    dst: Seq<char>,
    expected: Seq<u8>,
    state: atomic::StateView,
) -> Result<bool, error::FaultView> {
    if !state.exists {
        Ok(false)
    } else {
        match state.digest {
            None => Err(
                error::fault(
                    ErrorKind::Conflict,
                    dst + " is not a readable file; the deletion was refused"@,
                ),
            ),
            Some(cur) => if cur == expected {
                Ok(true)
            } else {
                Err(
                    error::fault(
                        ErrorKind::Conflict,
                        dst + " changed since the base snapshot (expected "@ + digest::hex_of(
                            expected,
                        ) + ", found "@ + digest::hex_of(cur) + "); the deletion was refused"@,
                    ),
                )
            },
        }
    }
}

/// Decides a deletion: whether there is a file to be removed. Only a file that
/// still holds the content of the base snapshot is.
pub fn check_delete(dst: &PathText, expected: &FileHash, state: &FileState) -> (r: Result<
    bool,
    Error,
>)
    ensures
        match delete_start(dst.shown@, expected@, state@) {
            Ok(b) => r == Ok::<bool, Error>(b),
            Err(f) => r matches Err(e) && e@ == f,
        },
{
    if !state.exists {
        return Ok(false);
    }
    match &state.digest {
        None => Err(
            Error::conflict(
                text::cat2(
                    dst.shown.as_str(),
                    " is not a readable file; the deletion was refused",
                ),
            ),
        ),
        Some(cur) => if cur.same(expected) {
            Ok(true)
        } else {
            let mut m: String = text::cat5(
                dst.shown.as_str(),
                " changed since the base snapshot (expected ",
                expected.to_hex().as_str(),
                ", found ",
                cur.to_hex().as_str(),
            );
            m.append("); the deletion was refused");
            Err(Error::conflict(m))
        },
    }
}

/// The error for a file that could not be removed.
pub fn remove_error(dst: &PathText, said: &str) -> (r: Error)
    ensures
        r@ == error::fault(ErrorKind::Internal, "remove "@ + dst.shown@ + ": "@ + said@),
{
    Error::internal(text::cat4("remove ", dst.shown.as_str(), ": ", said))
}

// -------------------------------------------------------------- the machine

/// The error for a root that is not there.
pub open spec fn root_fault(what: Seq<char>, root: Seq<char>, said: Seq<char>) -> error::FaultView {
    error::fault(ErrorKind::NotFound, "merge "@ + what + " root "@ + root + ": "@ + said)
}

/// The error for a root that is not there; `what` is `destination` or `source`.
pub fn root_error(what: &str, root: &str, said: &str) -> (r: Error)
    ensures
        r@ == root_fault(what@, root@, said@),
{
    let mut m: String = text::cat5("merge ", what, " root ", root, ": ");
    m.append(said);
    Error::not_found(m)
}

/// What a [`Merge`] waits for.
#[derive(Debug, Clone, Copy, PartialEq, Eq, Structural)]
pub enum MergeStage {
    /// The root of the destination, then that of the source.
    DstRoot,
    SrcRoot,
    /// The place of the destination, then that of the source.
    Dst,
    Src,
    /// The state of the destination.
    State,
    /// The size of the source.
    Size,
    /// The open source.
    Open,
    /// The content of the source.
    Read,
    /// The written destination.
    Write,
    /// Nothing.
    Finished,
}

/// What came of a [`MergeStep`]. `said` is what the system says.
#[derive(Debug, Clone, PartialEq, Eq)]
pub enum MergeEvent {
    RootFound,
    RootMissing { said: String },
    Placed(PathText),
    PlaceFailed(Error),
    /// The state of the destination with the digest of its content.
    Looked(FileState),
    LookFailed(Error),
    Sized(u64),
    /// The source was opened; what it is, and what its path now names.
    Opened { opened: Option<FileIdentity>, at_path: Option<FileIdentity> },
    Read(Vec<u8>),
    ReadFailed { said: String },
    /// The source could not be sized or opened.
    SourceFailed { missing: bool, said: String },
    Written,
    WriteFailed(Error),
}

/// What is to be done next.
#[derive(Debug, Clone, PartialEq, Eq)]
pub enum MergeStep {
    /// Find the canonical root of the destination.
    FindDstRoot,
    /// Find the canonical root of the source.
    FindSrcRoot,
    /// Resolve the destination; with `create`, make its missing directories.
    PlaceDst { create: bool },
    /// Resolve the source.
    PlaceSrc,
    /// Look at the destination and hash its content.
    Look,
    /// Find the size of the source.
    Size,
    /// Open the source.
    Open,
    /// Read the open source.
    Read,
    /// Replace the destination, expected in this state, by these bytes.
    Replace { expected: FileState, bytes: Vec<u8> },
    /// Make the destination, where there is none, of these bytes.
    Create { bytes: Vec<u8> },
    /// Done.
    Done(CasMergeResult),
    /// Done: refused.
    Failed(Error),
}

/// A [`MergeStep`] by its contents.
pub enum MergeStepView {
    FindDstRoot,
    FindSrcRoot,
    PlaceDst { create: bool },
    PlaceSrc,
    Look,
    Size,
    Open,
    Read,
    Replace { expected: atomic::StateView, bytes: Seq<u8> },
    Create { bytes: Seq<u8> },
    Done(CasMergeResult),
    Failed(error::FaultView),
}

impl View for MergeStep {
    type V = MergeStepView;

    open spec fn view(&self) -> MergeStepView {
        match self {
            MergeStep::FindDstRoot => MergeStepView::FindDstRoot,
            MergeStep::FindSrcRoot => MergeStepView::FindSrcRoot,
            MergeStep::PlaceDst { create } => MergeStepView::PlaceDst { create: *create },
            MergeStep::PlaceSrc => MergeStepView::PlaceSrc,
            MergeStep::Look => MergeStepView::Look,
            MergeStep::Size => MergeStepView::Size,
            MergeStep::Open => MergeStepView::Open,
            MergeStep::Read => MergeStepView::Read,
            MergeStep::Replace { expected, bytes } => MergeStepView::Replace {
                expected: expected@,
                bytes: bytes@,
            },
            MergeStep::Create { bytes } => MergeStepView::Create { bytes: bytes@ },
            MergeStep::Done(c) => MergeStepView::Done(*c),
            MergeStep::Failed(e) => MergeStepView::Failed(e@),
        }
    }
}

/// A [`Merge`] by its contents.
pub struct MergeView {
    /// The two roots, as messages show them.
    pub dst_root: Seq<char>,
    pub src_root: Seq<char>,
    /// The caller's path of the source, shown and quoted.
    pub src_rel: Seq<char>,
    pub src_quoted: Seq<char>,
    /// The destination and the source, resolved.
    pub dst: Seq<char>,
    pub src: Seq<char>,
    /// The digests expected of the source and of the destination.
    pub expected_src: Seq<u8>,
    pub expected_dst: Option<Seq<u8>>,
    /// The state in which the destination was found.
    pub seen: Option<atomic::StateView>,
    pub stage: MergeStage,
}

/// The merge waits for the event.
pub open spec fn merge_awaited(stage: MergeStage, event: MergeEvent) -> bool {
    match event {
        MergeEvent::RootFound | MergeEvent::RootMissing { .. } => stage == MergeStage::DstRoot
            || stage == MergeStage::SrcRoot,
        MergeEvent::Placed(_) | MergeEvent::PlaceFailed(_) => stage == MergeStage::Dst || stage
            == MergeStage::Src,
        MergeEvent::Looked(_) | MergeEvent::LookFailed(_) => stage == MergeStage::State,
        MergeEvent::Sized(_) => stage == MergeStage::Size,
        MergeEvent::Opened { .. } => stage == MergeStage::Open,
        MergeEvent::SourceFailed { .. } => stage == MergeStage::Size || stage == MergeStage::Open,
        MergeEvent::Read(_) | MergeEvent::ReadFailed { .. } => stage == MergeStage::Read,
        MergeEvent::Written | MergeEvent::WriteFailed(_) => stage == MergeStage::Write,
    }
}

/// The merge is over, with this last step.
pub open spec fn merge_end(w: MergeView, step: MergeStepView) -> (MergeView, MergeStepView) {
    (MergeView { stage: MergeStage::Finished, ..w }, step)
}

/// The merge goes on.
pub open spec fn merge_go(w: MergeView, stage: MergeStage, step: MergeStepView) -> (
    MergeView,
    MergeStepView,
) {
    (MergeView { stage, ..w }, step)
}

/// The state that a replacement expects of a destination with this digest.
pub open spec fn at_base(base: Seq<u8>) -> atomic::StateView {
    atomic::StateView { exists: true, size: None, digest: Some(base), modified_ms: None }
}

/// What an event leads to.
pub open spec fn merge_next(w: MergeView, event: MergeEvent) -> (MergeView, MergeStepView) {
    match event {
        MergeEvent::RootFound => if w.stage == MergeStage::DstRoot {
            merge_go(w, MergeStage::SrcRoot, MergeStepView::FindSrcRoot)
        } else {
            merge_go(
                w,
                MergeStage::Dst,
                MergeStepView::PlaceDst { create: w.expected_dst is None },
            )
        },
        MergeEvent::RootMissing { said } => merge_end(
            w,
            MergeStepView::Failed(
                if w.stage == MergeStage::DstRoot {
                    root_fault("destination"@, w.dst_root, said@)
                } else {
                    root_fault("source"@, w.src_root, said@)
                },
            ),
        ),
        MergeEvent::Placed(path) => if w.stage == MergeStage::Dst {
            merge_go(
                MergeView { dst: path.shown@, ..w },
                MergeStage::Src,
                MergeStepView::PlaceSrc,
            )
        } else {
            merge_go(MergeView { src: path.shown@, ..w }, MergeStage::State, MergeStepView::Look)
        },
        MergeEvent::PlaceFailed(e) => merge_end(w, MergeStepView::Failed(e@)),
        MergeEvent::Looked(state) => {
            let v = MergeView { seen: Some(state@), ..w };
            match merge_start(w.dst, w.expected_src, w.expected_dst, state@) {
                Err(f) => merge_end(v, MergeStepView::Failed(f)),
                Ok(MergeStart::AlreadyCurrent) => merge_end(
                    v,
                    MergeStepView::Done(CasMergeResult::AlreadyCurrent),
                ),
                Ok(MergeStart::ReadSource) => merge_go(v, MergeStage::Size, MergeStepView::Size),
            }
        },
        MergeEvent::LookFailed(e) => merge_end(
            w,
            MergeStepView::Failed(
                error::fault(e@.kind, "destination recheck "@ + w.dst + ": "@ + e@.message),
            ),
        ),
        MergeEvent::Sized(len) => if len > MAX_MERGE_FILE_BYTES {
            merge_end(w, MergeStepView::Failed(size_fault(w.src_quoted, len)))
        } else {
            merge_go(w, MergeStage::Open, MergeStepView::Open)
        },
        MergeEvent::Opened { opened, at_path } => if opened is Some && opened == at_path {
            merge_go(w, MergeStage::Read, MergeStepView::Read)
        } else {
            merge_end(
                w,
                MergeStepView::Failed(
                    error::fault(
                        ErrorKind::Permission,
                        w.src_quoted + " changed identity between resolution and open (TOCTOU)"@,
                    ),
                ),
            )
        },
        MergeEvent::SourceFailed { missing, said } => merge_end(
            w,
            MergeStepView::Failed(workspace::io_fault(w.src_rel, missing, said@)),
        ),
        MergeEvent::Read(bytes) => if digest::blake3_of(bytes@) != w.expected_src {
            merge_end(
                w,
                MergeStepView::Failed(
                    drift_fault(w.src, w.expected_src, digest::blake3_of(bytes@)),
                ),
            )
        } else {
            merge_go(
                w,
                MergeStage::Write,
                match w.expected_dst {
                    Some(base) => MergeStepView::Replace {
                        expected: at_base(base),
                        bytes: bytes@,
                    },
                    None => MergeStepView::Create { bytes: bytes@ },
                },
            )
        },
        MergeEvent::ReadFailed { said } => merge_end(
            w,
            MergeStepView::Failed(
                error::fault(ErrorKind::Internal, "read "@ + w.src_quoted + ": "@ + said@),
            ),
        ),
        MergeEvent::Written => merge_end(w, MergeStepView::Done(CasMergeResult::Applied)),
        MergeEvent::WriteFailed(e) => merge_end(
            w,
            MergeStepView::Failed(write_fault(w.dst, w.expected_dst is Some, e@)),
        ),
    }
}

/// The source is touched only where the destination was found as it was at the
/// base snapshot.
pub open spec fn merge_sound(w: MergeView) -> bool {
    (w.stage == MergeStage::Size || w.stage == MergeStage::Open || w.stage == MergeStage::Read
        || w.stage == MergeStage::Write) ==> (w.seen matches Some(s) && merge_start(
        w.dst,
        w.expected_src,
        w.expected_dst,
        s,
    ) == Ok::<MergeStart, error::FaultView>(MergeStart::ReadSource))
}

/// One approved change of a file's content, applied step by step.
pub struct Merge {
    dst_root: String,
    src_root: String,
    change: ContentMerge,
    seen: Option<FileState>,
    stage: MergeStage,
}

impl View for Merge {
    type V = MergeView;

    closed spec fn view(&self) -> MergeView {
        MergeView {
            dst_root: self.dst_root@,
            src_root: self.src_root@,
            src_rel: self.change.src_rel.shown@,
            src_quoted: self.change.src_rel.quoted@,
            dst: self.change.dst.shown@,
            src: self.change.src.shown@,
            expected_src: self.change.expected_src@,
            expected_dst: digest::opt_hash(self.change.expected_dst),
            seen: match self.seen {
                Some(s) => Some(s@),
                None => None,
            },
            stage: self.stage,
        }
    }
}

impl Merge {
    /// Starts a merge of the source `src_rel`, expected to hold content of the
    /// digest `expected_src`, into a destination that held `expected_dst` at the
    /// base snapshot, if it was there; the first step is
    /// [`MergeStep::FindDstRoot`]. The roots are as messages show them.
    pub fn begin(
        dst_root: &str,
        src_root: &str,
        src_rel: PathText,
        expected_src: FileHash,
        expected_dst: Option<FileHash>,
    ) -> (r: Merge)
        ensures
            r@ == (MergeView {
                dst_root: dst_root@,
                src_root: src_root@,
                src_rel: src_rel.shown@,
                src_quoted: src_rel.quoted@,
                dst: Seq::empty(),
                src: Seq::empty(),
                expected_src: expected_src@,
                expected_dst: digest::opt_hash(expected_dst),
                seen: None,
                stage: MergeStage::DstRoot,
            }),
            merge_sound(r@),
    {
        let dst: PathText = PathText { shown: String::new(), quoted: String::new() };
        let src: PathText = PathText { shown: String::new(), quoted: String::new() };
        proof {
            assert(dst.shown@ =~= Seq::<char>::empty());
            assert(src.shown@ =~= Seq::<char>::empty());
        }
        Merge {
            dst_root: dst_root.to_owned(),
            src_root: src_root.to_owned(),
            change: ContentMerge { dst, src, src_rel, expected_src, expected_dst },
            seen: None,
            stage: MergeStage::DstRoot,
        }
    }

    /// What the merge waits for.
    pub fn stage(&self) -> (r: MergeStage)
        ensures
            r == self@.stage,
    {
        self.stage
    }

    fn end(&mut self, step: MergeStep) -> (r: MergeStep)
        ensures
            (final(self)@, r@) == merge_end(old(self)@, step@),
    {
        self.stage = MergeStage::Finished;
        step
    }

    fn go(&mut self, stage: MergeStage, step: MergeStep) -> (r: MergeStep)
        ensures
            (final(self)@, r@) == merge_go(old(self)@, stage, step@),
    {
        self.stage = stage;
        step
    }

    fn root_missing(&mut self, said: &str) -> (r: MergeStep)
        ensures
            (final(self)@, r@) == merge_end(
                old(self)@,
                MergeStepView::Failed(
                    if old(self)@.stage == MergeStage::DstRoot {
                        root_fault("destination"@, old(self)@.dst_root, said@)
                    } else {
                        root_fault("source"@, old(self)@.src_root, said@)
                    },
                ),
            ),
    {
        let e: Error = if self.stage == MergeStage::DstRoot {
            root_error("destination", self.dst_root.as_str(), said)
        } else {
            root_error("source", self.src_root.as_str(), said)
        };
        self.end(MergeStep::Failed(e))
    }

    fn looked(&mut self, state: FileState) -> (r: MergeStep)
        ensures
            (final(self)@, r@) == merge_next(old(self)@, MergeEvent::Looked(state)),
    {
        let start: Result<MergeStart, Error> = self.change.start(&state);
        self.seen = Some(state);
        match start {
            Err(e) => self.end(MergeStep::Failed(e)),
            Ok(MergeStart::AlreadyCurrent) => self.end(
                MergeStep::Done(CasMergeResult::AlreadyCurrent),
            ),
            Ok(MergeStart::ReadSource) => self.go(MergeStage::Size, MergeStep::Size),
        }
    }

    fn read(&mut self, bytes: Vec<u8>) -> (r: MergeStep)
        ensures
            (final(self)@, r@) == merge_next(old(self)@, MergeEvent::Read(bytes)),
    {
        match self.change.check_source(bytes.as_slice()) {
            Err(e) => self.end(MergeStep::Failed(e)),
            Ok(MergeWrite::Replace(expected)) => self.go(
                MergeStage::Write,
                MergeStep::Replace { expected, bytes },
            ),
            Ok(MergeWrite::Create) => self.go(MergeStage::Write, MergeStep::Create { bytes }),
        }
    }

    /// Takes the event that the merge waited for, and says what is to be done
    /// next.
    pub fn advance(&mut self, event: MergeEvent) -> (r: MergeStep)
        requires
            merge_sound(old(self)@),
            merge_awaited(old(self)@.stage, event),
        ensures
            (final(self)@, r@) == merge_next(old(self)@, event),
            merge_sound(final(self)@),
    {
        match event {
            MergeEvent::RootFound => if self.stage == MergeStage::DstRoot {
                self.go(MergeStage::SrcRoot, MergeStep::FindSrcRoot)
            } else {
                let create: bool = self.change.expected_dst.is_none();
                self.go(MergeStage::Dst, MergeStep::PlaceDst { create })
            },
            MergeEvent::RootMissing { said } => self.root_missing(said.as_str()),
            MergeEvent::Placed(path) => if self.stage == MergeStage::Dst {
                self.change.dst = path;
                self.go(MergeStage::Src, MergeStep::PlaceSrc)
            } else {
                self.change.src = path;
                self.go(MergeStage::State, MergeStep::Look)
            },
            MergeEvent::PlaceFailed(e) => self.end(MergeStep::Failed(e)),
            MergeEvent::Looked(state) => self.looked(state),
            MergeEvent::LookFailed(e) => {
                let e: Error = recheck_error("destination recheck ", &self.change.dst, e);
                self.end(MergeStep::Failed(e))
            },
            MergeEvent::Sized(len) => match self.change.check_size(len) {
                Err(e) => self.end(MergeStep::Failed(e)),
                Ok(_) => self.go(MergeStage::Open, MergeStep::Open),
            },
            MergeEvent::Opened { opened, at_path } => match check_identity(
                &self.change.src_rel,
                opened,
                at_path,
            ) {
                Err(e) => self.end(MergeStep::Failed(e)),
                Ok(_) => self.go(MergeStage::Read, MergeStep::Read),
            },
            MergeEvent::SourceFailed { missing, said } => {
                let e: Error = io_error(&self.change.src_rel, missing, said.as_str());
                self.end(MergeStep::Failed(e))
            },
            MergeEvent::Read(bytes) => self.read(bytes),
            MergeEvent::ReadFailed { said } => {
                let e: Error = Error::internal(
                    text::cat4(
                        "read ",
                        self.change.src_rel.quoted.as_str(),
                        ": ",
                        said.as_str(),
                    ),
                );
                self.end(MergeStep::Failed(e))
            },
            MergeEvent::Written => self.end(MergeStep::Done(CasMergeResult::Applied)),
            MergeEvent::WriteFailed(e) => {
                let e: Error = self.change.write_error(e);
                self.end(MergeStep::Failed(e))
            },
        }
    }
}

/// Content is written only where it is exactly what was staged and the
/// destination was found as it was at the base snapshot: with that content, or
/// absent where it was absent then. A destination that was there is written only
/// as a replacement of that content, one that was not only as a creation.
pub proof fn law_only_staged_content_is_written(w: MergeView, event: MergeEvent)
    requires
        merge_sound(w),
        merge_awaited(w.stage, event),
    ensures
        match merge_next(w, event).1 {
            MergeStepView::Replace { expected, bytes } => {
                &&& digest::blake3_of(bytes) == w.expected_src
                &&& w.expected_dst matches Some(base)
                &&& expected == at_base(base)
                &&& w.seen matches Some(s)
                &&& s.exists
                &&& s.digest == Some(base)
            },
            MergeStepView::Create { bytes } => {
                &&& digest::blake3_of(bytes) == w.expected_src
                &&& w.expected_dst is None
                &&& w.seen matches Some(s)
                &&& !s.exists
            },
            MergeStepView::Done(CasMergeResult::Applied) => event is Written,
            _ => true,
        },
{
}

/// A merge reads its source where the destination is as it was at the base
/// snapshot: absent where it was absent, and else with that content.
pub proof fn law_an_unmoved_destination_is_merged(
    dst: Seq<char>,
    src: Seq<u8>,
    base: Seq<u8>,
    state: atomic::StateView,
)
    ensures
        !state.exists ==> merge_start(dst, src, None, state) == Ok::<MergeStart, error::FaultView>(
            MergeStart::ReadSource,
        ),
        state.exists && state.digest == Some(base) && base != src ==> merge_start(
            dst,
            src,
            Some(base),
            state,
        ) == Ok::<MergeStart, error::FaultView>(MergeStart::ReadSource),
{
}

/// An undisturbed merge goes through: it finds its roots and its paths, looks at
/// the destination, sizes, opens and reads the source, writes what it read, and is
/// applied.
pub proof fn law_an_undisturbed_merge_goes_through(
    w: MergeView,
    dst: PathText,
    src: PathText,
    state: FileState,
    len: u64,
    identity: workspace::FileIdentity,
    bytes: Vec<u8>,
)
    requires
        w.stage == MergeStage::DstRoot,
        w.expected_dst is None ==> !state@.exists,
        w.expected_dst matches Some(base) ==> state@.exists && state@.digest == Some(base) && base
            != w.expected_src,
        len <= 268435456,
        digest::blake3_of(bytes@) == w.expected_src,
    ensures
        ({
            let a = merge_next(w, MergeEvent::RootFound);
            let b = merge_next(a.0, MergeEvent::RootFound);
            let c = merge_next(b.0, MergeEvent::Placed(dst));
            let d = merge_next(c.0, MergeEvent::Placed(src));
            let e = merge_next(d.0, MergeEvent::Looked(state));
            let f = merge_next(e.0, MergeEvent::Sized(len));
            let g = merge_next(
                f.0,
                MergeEvent::Opened { opened: Some(identity), at_path: Some(identity) },
            );
            let h = merge_next(g.0, MergeEvent::Read(bytes));
            let i = merge_next(h.0, MergeEvent::Written);
            &&& a.1 is FindSrcRoot
            &&& b.1 == (MergeStepView::PlaceDst { create: w.expected_dst is None })
            &&& c.1 is PlaceSrc && c.0.dst == dst.shown@
            &&& d.1 is Look && d.0.src == src.shown@
            &&& e.1 is Size
            &&& f.1 is Open
            &&& g.1 is Read
            &&& w.expected_dst is None ==> h.1 == (MergeStepView::Create { bytes: bytes@ })
            &&& w.expected_dst matches Some(base) ==> (h.1 matches MergeStepView::Replace {
                expected,
                bytes: new,
            } && new == bytes@ && expected.exists && expected.digest == Some(base)
                && expected.size is None && expected.modified_ms is None)
            &&& i.1 == MergeStepView::Done(CasMergeResult::Applied) && i.0.stage is Finished
        }),
{
}

/// A merge that meets anything else is over without having written: a source that
/// is too large, that is not the file its path names, or that is not what was
/// staged is refused.
pub proof fn law_a_disturbed_merge_is_refused(
    w: MergeView,
    len: u64,
    opened: Option<workspace::FileIdentity>,
    at_path: Option<workspace::FileIdentity>,
    bytes: Vec<u8>,
    e: Error,
    said: String,
)
    requires
        len > 268435456,
        opened is None || opened != at_path,
        digest::blake3_of(bytes@) != w.expected_src,
    ensures
        ({
            let large = merge_next(w, MergeEvent::Sized(len));
            let other = merge_next(w, MergeEvent::Opened { opened, at_path });
            let drifted = merge_next(w, MergeEvent::Read(bytes));
            let unplaced = merge_next(w, MergeEvent::PlaceFailed(e));
            let unlooked = merge_next(w, MergeEvent::LookFailed(e));
            let rootless = merge_next(w, MergeEvent::RootMissing { said });
            let unread = merge_next(w, MergeEvent::ReadFailed { said });
            &&& large.0.stage is Finished && (large.1 matches MergeStepView::Failed(f) && f.kind
                == ErrorKind::Oversized)
            &&& other.0.stage is Finished && (other.1 matches MergeStepView::Failed(f) && f.kind
                == ErrorKind::Permission)
            &&& drifted.0.stage is Finished && (drifted.1 matches MergeStepView::Failed(f) && f.kind
                == ErrorKind::Conflict)
            &&& unplaced.0.stage is Finished && unplaced.1 == MergeStepView::Failed(e@)
            &&& unlooked.0.stage is Finished && (unlooked.1 matches MergeStepView::Failed(f) && f.kind
                == e@.kind)
            &&& rootless.0.stage is Finished && (rootless.1 matches MergeStepView::Failed(f) && f.kind
                == ErrorKind::NotFound)
            &&& unread.0.stage is Finished && (unread.1 matches MergeStepView::Failed(f) && f.kind
                == ErrorKind::Internal)
        }),
{
}

/// A file is deleted exactly where it still holds the content of the base
/// snapshot; one that is gone already needs no deletion, and any other is a
/// conflict.
pub proof fn law_only_unchanged_files_are_deleted(
    dst: Seq<char>,
    expected: Seq<u8>,
    state: atomic::StateView,
)
    ensures
        !state.exists ==> delete_start(dst, expected, state) == Ok::<bool, error::FaultView>(false),
        state.exists && state.digest == Some(expected) ==> delete_start(dst, expected, state)
            == Ok::<bool, error::FaultView>(true),
        state.exists && state.digest != Some(expected) ==> (delete_start(
            dst,
            expected,
            state,
        ) matches Err(f) && f.kind == ErrorKind::Conflict),
{
}

/// A write that failed for another reason than a conflict fails for that reason; a
/// conflict names the destination.
pub proof fn law_a_failed_write_names_the_destination(
    dst: Seq<char>,
    replacing: bool,
    f: error::FaultView,
)
    ensures
        f.kind != ErrorKind::Conflict ==> write_fault(dst, replacing, f) == f,
        f.kind == ErrorKind::Conflict ==> {
            let g = write_fault(dst, replacing, f);
            &&& g.kind == ErrorKind::Conflict
            &&& dst.is_prefix_of(g.message)
        },
{
    let g = write_fault(dst, replacing, f);
    if f.kind == ErrorKind::Conflict {
        assert(dst =~= g.message.subrange(0, dst.len() as int));
    }
}

/// A source that is missing is not found, and one that cannot be reached fails with
/// what the system says; neither is anything written.
pub proof fn law_a_missing_source_is_not_found(w: MergeView, said: String)
    ensures
        (merge_next(w, MergeEvent::SourceFailed { missing: true, said }).1
            matches MergeStepView::Failed(f) && f.kind == ErrorKind::NotFound),
        (merge_next(w, MergeEvent::SourceFailed { missing: false, said }).1
            matches MergeStepView::Failed(f) && f.kind == ErrorKind::Internal),
{
}

} // verus!

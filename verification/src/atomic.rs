//! What a durable replacement of a file checks and says.
//!
//! The bytes are written to a temporary file beside the destination, synced,
//! and renamed over it, so a crash leaves the old file or the new one. A
//! compare-and-swap replacement holds the destination against a [`FileState`]
//! before anything is written and again right before the rename.
use vstd::prelude::*;

use crate::digest::FileHash;
use crate::digest;
use crate::error::{Error, ErrorKind};
use crate::error;
use crate::text;

verus! {

/// What is known of a file, or expected of it. `None` leaves an axis open.
#[derive(Debug, Clone, PartialEq, Eq)]
pub struct FileState {
    /// There is a file.
    pub exists: bool,
    /// Its length in bytes.
    pub size: Option<u64>,
    /// The digest of its whole content.
    pub digest: Option<FileHash>,
    /// When it was last modified, in milliseconds since the epoch.
    pub modified_ms: Option<i64>,
}

/// A [`FileState`] by its contents.
pub struct StateView {
    pub exists: bool,
    pub size: Option<u64>,
    pub digest: Option<Seq<u8>>,
    pub modified_ms: Option<i64>,
}

impl View for FileState {
    type V = StateView;

    open spec fn view(&self) -> StateView {
        StateView {
            exists: self.exists,
            size: self.size,
            digest: digest::opt_hash(self.digest),
            modified_ms: self.modified_ms,
        }
    }
}

/// What a look at a path found.
#[derive(Debug, Clone, PartialEq, Eq)]
pub enum Seen {
    /// A regular file.
    File { len: u64, modified_ms: Option<i64> },
    /// Something else.
    Other,
    /// Nothing.
    Missing,
    /// The look failed; this is what the system says.
    Failed(String),
}

/// The state with nothing there.
pub open spec fn absent_state() -> StateView {
    StateView { exists: false, size: None, digest: None, modified_ms: None }
}

/// The state that a look found at the path shown as `path`, without its digest.
pub open spec fn seen_state(path: Seq<char>, seen: Seen) -> Result<StateView, error::FaultView> {
    match seen {
        Seen::File { len, modified_ms } => Ok(
            StateView { exists: true, size: Some(len), digest: None, modified_ms },
        ),
        Seen::Other => Ok(
            StateView { exists: true, size: None, digest: None, modified_ms: None },
        ),
        Seen::Missing => Ok(absent_state()),
        Seen::Failed(said) => Err(
            error::fault(ErrorKind::Internal, "stat "@ + path + ": "@ + said@),
        ),
    }
}

/// `actual` is as `expected` says on every axis that both know.
pub open spec fn satisfied(expected: StateView, actual: StateView) -> bool {
    &&& expected.exists == actual.exists
    &&& expected.size is Some && actual.size is Some ==> expected.size == actual.size
    &&& expected.digest is Some && actual.digest is Some ==> expected.digest == actual.digest
    &&& expected.modified_ms is Some && actual.modified_ms is Some ==> expected.modified_ms
        == actual.modified_ms
}

impl FileState {
    /// The state with nothing there.
    pub fn absent() -> (r: Self)
        ensures
            r@ == absent_state(),
    {
        FileState { exists: false, size: None, digest: None, modified_ms: None }
    }

    /// The state that a look found at `path`, without its digest.
    pub fn from_seen(path: &str, seen: Seen) -> (r: Result<Self, Error>)
        ensures
            match seen_state(path@, seen) {
                Ok(s) => r matches Ok(v) && v@ == s,
                Err(f) => r matches Err(e) && e@ == f,
            },
    {
        match seen {
            Seen::File { len, modified_ms } => Ok(
                FileState { exists: true, size: Some(len), digest: None, modified_ms },
            ),
            Seen::Other => Ok(
                FileState { exists: true, size: None, digest: None, modified_ms: None },
            ),
            Seen::Missing => Ok(FileState::absent()),
            Seen::Failed(said) => Err(
                Error::internal(text::cat4("stat ", path, ": ", said.as_str())),
            ),
        }
    }

    /// The same state with the digest of the whole content.
    pub fn with_digest(self, digest: FileHash) -> (r: Self)
        ensures
            r@ == (StateView { digest: Some(digest@), ..self@ }),
    {
        FileState {
            exists: self.exists,
            size: self.size,
            digest: Some(digest),
            modified_ms: self.modified_ms,
        }
    }

    /// Whether `actual` is as this state says on every axis that both know.
    pub fn satisfied_by(&self, actual: &FileState) -> (r: bool)
        ensures
            r == satisfied(self@, actual@),
    {
        if self.exists != actual.exists {
            return false;
        }
        if let (Some(a), Some(b)) = (self.size, actual.size) {
            if a != b {
                return false;
            }
        }
        if let (Some(a), Some(b)) = (&self.digest, &actual.digest) {
            if !a.same(b) {
                return false;
            }
        }
        if let (Some(a), Some(b)) = (self.modified_ms, actual.modified_ms) {
            if a != b {
                return false;
            }
        }
        true
    }
}

/// `true` or `false`.
pub open spec fn bool_text(b: bool) -> Seq<char> {
    if b {
        "true"@
    } else {
        "false"@
    }
}

/// `None`, or the number in `Some(..)`.
pub open spec fn size_text(n: Option<u64>) -> Seq<char> {
    match n {
        None => "None"@,
        Some(n) => "Some("@ + text::decimal(n as nat) + ")"@,
    }
}

/// `None`, or the quoted hexadecimal digest in `Some(..)`.
pub open spec fn digest_text(d: Option<Seq<u8>>) -> Seq<char> {
    match d {
        None => "None"@,
        Some(d) => "Some("@ + text::debug_of(digest::hex_of(d)) + ")"@,
    }
}

/// The axes of a state that a mismatch names.
pub open spec fn state_text(s: StateView) -> Seq<char> {
    "exists="@ + bool_text(s.exists) + " size="@ + size_text(s.size) + " digest="@ + digest_text(
        s.digest,
    )
}

/// The error for a file that is not as expected.
pub open spec fn mismatch_fault(
    path: Seq<char>,
    expected: StateView,
    actual: StateView,
) -> error::FaultView {
    error::fault(
        ErrorKind::Conflict,
        path + " changed since it was staged (cas mismatch; expected "@ + state_text(expected)
            + ", found "@ + state_text(actual) + ")"@,
    )
}

fn render_state(s: &FileState) -> (r: String)
    ensures
        r@ == state_text(s@),
{
    let mut out: String = "exists=".to_owned();
    out.append(
        if s.exists {
            "true"
        } else {
            "false"
        },
    );
    out.append(" size=");
    let size: String = match s.size {
        None => "None".to_owned(),
        Some(n) => text::cat3("Some(", text::decimal_text(n).as_str(), ")"),
    };
    out.append(size.as_str());
    out.append(" digest=");
    let digest: String = match &s.digest {
        None => "None".to_owned(),
        Some(d) => text::cat3("Some(", text::debug_str(d.to_hex().as_str()).as_str(), ")"),
    };
    out.append(digest.as_str());
    out
}

/// Holds the state found at `path` against the one expected there.
pub fn check_state(path: &str, expected: &FileState, actual: &FileState) -> (r: Result<(), Error>)
    ensures
        satisfied(expected@, actual@) <==> r is Ok,
        r matches Err(e) ==> e@ == mismatch_fault(path@, expected@, actual@),
{
    if expected.satisfied_by(actual) {
        return Ok(());
    }
    let mut m: String = text::cat4(
        path,
        " changed since it was staged (cas mismatch; expected ",
        render_state(expected).as_str(),
        ", found ",
    );
    m.append(render_state(actual).as_str());
    m.append(")");
    Err(Error::conflict(m))
}

/// What a writer that read content of this digest expects of the file that is
/// there now: all that was seen of it, and that digest.
pub fn staged_expectation(rel: &str, now: FileState, expected: FileHash) -> (r: Result<
    FileState,
    Error,
>)
    ensures
        now@.exists ==> (r matches Ok(s) && s@ == (StateView {
            digest: Some(expected@),
            ..now@
        })),
        !now@.exists ==> (r matches Err(e) && e@ == error::fault(
            ErrorKind::Conflict,
            rel@ + " disappeared before the commit-time check"@,
        )),
{
    if !now.exists {
        return Err(
            Error::conflict(text::cat2(rel, " disappeared before the commit-time check")),
        );
    }
    Ok(now.with_digest(expected))
}

/// A replacement is refused wherever the whole content is known and differs from
/// what was expected: whatever else holds, a changed file is not clobbered.
pub proof fn law_changed_content_is_never_replaced(expected: StateView, actual: StateView)
    requires
        expected.digest is Some,
        actual.digest is Some,
        expected.digest != actual.digest,
    ensures
        !satisfied(expected, actual),
{
}

/// A file satisfies the state that was taken of it, and a state that leaves all
/// axes open is satisfied by whatever exists.
pub proof fn law_a_state_satisfies_itself(s: StateView, other: StateView)
    requires
        other.exists,
    ensures
        satisfied(s, s),
        satisfied(
            (StateView { exists: true, size: None, digest: None, modified_ms: None }),
            other,
        ),
        !satisfied(s, absent_state()) <==> s.exists,
{
}

// --------------------------------------------------------- temporary files

/// The name of the temporary file beside a file named `name`. `nonce` is what
/// no other writer uses.
pub fn temp_name(name: &str, process: u32, nonce: &str) -> (r: String)
    ensures
        r@ == "."@ + name@ + ".kp-tmp-"@ + text::decimal(process as nat) + "-"@ + nonce@,
{
    let mut out: String = text::cat5(
        ".",
        name,
        ".kp-tmp-",
        text::decimal_text(process as u64).as_str(),
        "-",
    );
    out.append(nonce);
    out
}

/// The error for a link that could not be made over the temporary file: taken
/// names are a conflict.
pub fn create_error(taken: bool, tmp: &str, path: &str, said: &str) -> (r: Error)
    ensures
        taken ==> r@ == error::fault(ErrorKind::Conflict, path@ + " already exists"@),
        !taken ==> r@ == error::fault(
            ErrorKind::Internal,
            "link "@ + tmp@ + " -> "@ + path@ + ": "@ + said@,
        ),
{
    if taken {
        Error::conflict(text::cat2(path, " already exists"))
    } else {
        let mut m: String = text::cat5("link ", tmp, " -> ", path, ": ");
        m.append(said);
        Error::internal(m)
    }
}

/// The error for a temporary file that could not be renamed over `path`.
pub open spec fn rename_fault(tmp: Seq<char>, path: Seq<char>, said: Seq<char>) -> error::FaultView {
    error::fault(ErrorKind::Internal, "rename "@ + tmp + " -> "@ + path + ": "@ + said)
}

/// The error for a temporary file that could not be renamed over `path`.
pub fn rename_error(tmp: &str, path: &str, said: &str) -> (r: Error)
    ensures
        r@ == rename_fault(tmp@, path@, said@),
{
    let mut m: String = text::cat5("rename ", tmp, " -> ", path, ": ");
    m.append(said);
    Error::internal(m)
}

// -------------------------------------------------------- compare and swap

/// What a [`Replacement`] waits for.
#[derive(Debug, Clone, Copy, PartialEq, Eq, Structural)]
pub enum ReplaceStage {
    /// A first look at the destination.
    Look,
    /// The bytes in the temporary file.
    Stage,
    /// A look at the destination and its whole content.
    Recheck,
    /// The rename.
    Rename,
    /// Nothing.
    Finished,
}

/// What came of a [`ReplaceStep`]. `said` is what the system says.
#[derive(Debug, Clone, PartialEq, Eq)]
pub enum ReplaceEvent {
    Looked(Seen),
    /// The bytes are synced in the temporary file of this name.
    Staged { tmp: String },
    StageFailed(Error),
    /// The state of the destination with the digest of its content.
    Rechecked(FileState),
    RecheckFailed(Error),
    Renamed,
    RenameFailed { said: String },
}

/// What is to be done next.
#[derive(Debug, Clone, PartialEq, Eq)]
pub enum ReplaceStep {
    /// Look at the destination.
    Look,
    /// Write the bytes to a temporary file beside it, and sync them.
    Stage,
    /// Look at the destination and hash its whole content.
    Recheck,
    /// Rename the temporary file over the destination.
    Rename,
    /// Done: content of this digest stands at the destination.
    Done(FileHash),
    /// Done: refused. With `discard`, the temporary file is removed.
    Failed { error: Error, discard: bool },
}

/// A [`ReplaceStep`] by its contents.
pub enum ReplaceStepView {
    Look,
    Stage,
    Recheck,
    Rename,
    Done(Seq<u8>),
    Failed { error: error::FaultView, discard: bool },
}

impl View for ReplaceStep {
    type V = ReplaceStepView;

    open spec fn view(&self) -> ReplaceStepView {
        match self {
            ReplaceStep::Look => ReplaceStepView::Look,
            ReplaceStep::Stage => ReplaceStepView::Stage,
            ReplaceStep::Recheck => ReplaceStepView::Recheck,
            ReplaceStep::Rename => ReplaceStepView::Rename,
            ReplaceStep::Done(h) => ReplaceStepView::Done(h@),
            ReplaceStep::Failed { error, discard } => ReplaceStepView::Failed {
                error: error@,
                discard: *discard,
            },
        }
    }
}

/// A [`Replacement`] by its contents.
pub struct ReplaceView {
    pub path: Seq<char>,
    pub expected: StateView,
    /// The digest of the new content.
    pub hash: Seq<u8>,
    pub tmp: Seq<char>,
    pub stage: ReplaceStage,
}

/// The replacement waits for the event.
pub open spec fn replace_awaited(stage: ReplaceStage, event: ReplaceEvent) -> bool {
    match event {
        ReplaceEvent::Looked(_) => stage == ReplaceStage::Look,
        ReplaceEvent::Staged { .. } | ReplaceEvent::StageFailed(_) => stage == ReplaceStage::Stage,
        ReplaceEvent::Rechecked(_) | ReplaceEvent::RecheckFailed(_) => stage
            == ReplaceStage::Recheck,
        ReplaceEvent::Renamed | ReplaceEvent::RenameFailed { .. } => stage == ReplaceStage::Rename,
    }
}

/// The replacement is refused.
pub open spec fn replace_failed(w: ReplaceView, error: error::FaultView, discard: bool) -> (
    ReplaceView,
    ReplaceStepView,
) {
    (
        ReplaceView { stage: ReplaceStage::Finished, ..w },
        ReplaceStepView::Failed { error, discard },
    )
}

/// The replacement goes on, where the destination is as expected.
pub open spec fn replace_checked(
    w: ReplaceView,
    actual: StateView,
    stage: ReplaceStage,
    step: ReplaceStepView,
    discard: bool,
) -> (ReplaceView, ReplaceStepView) {
    if satisfied(w.expected, actual) {
        (ReplaceView { stage, ..w }, step)
    } else {
        replace_failed(w, mismatch_fault(w.path, w.expected, actual), discard)
    }
}

/// What an event leads to.
pub open spec fn replace_next(w: ReplaceView, event: ReplaceEvent) -> (
    ReplaceView,
    ReplaceStepView,
) {
    match event {
        ReplaceEvent::Looked(seen) => match seen_state(w.path, seen) {
            Err(f) => replace_failed(w, f, false),
            Ok(s) => replace_checked(w, s, ReplaceStage::Stage, ReplaceStepView::Stage, false),
        },
        ReplaceEvent::Staged { tmp } => (
            ReplaceView { tmp: tmp@, stage: ReplaceStage::Recheck, ..w },
            ReplaceStepView::Recheck,
        ),
        ReplaceEvent::StageFailed(e) => replace_failed(w, e@, false),
        ReplaceEvent::Rechecked(s) => replace_checked(
            w,
            s@,
            ReplaceStage::Rename,
            ReplaceStepView::Rename,
            true,
        ),
        ReplaceEvent::RecheckFailed(e) => replace_failed(w, e@, false),
        ReplaceEvent::Renamed => (
            ReplaceView { stage: ReplaceStage::Finished, ..w },
            ReplaceStepView::Done(w.hash),
        ),
        ReplaceEvent::RenameFailed { said } => replace_failed(
            w,
            rename_fault(w.tmp, w.path, said@),
            true,
        ),
    }
}

/// A compare-and-swap replacement of a file: a cheap look before anything is
/// staged, and the whole content once more right before the rename.
pub struct Replacement {
    path: String,
    expected: FileState,
    hash: FileHash,
    tmp: String,
    stage: ReplaceStage,
}

impl View for Replacement {
    type V = ReplaceView;

    closed spec fn view(&self) -> ReplaceView {
        ReplaceView {
            path: self.path@,
            expected: self.expected@,
            hash: self.hash@,
            tmp: self.tmp@,
            stage: self.stage,
        }
    }
}

impl Replacement {
    /// Starts the replacement of the file at `path`, expected in this state, by
    /// `bytes`; its first step is [`ReplaceStep::Look`].
    pub fn begin(path: &str, expected: FileState, bytes: &[u8]) -> (r: Replacement)
        ensures
            r@ == (ReplaceView {
                path: path@,
                expected: expected@,
                hash: digest::blake3_of(bytes@),
                tmp: Seq::empty(),
                stage: ReplaceStage::Look,
            }),
    {
        let tmp: String = String::new();
        proof {
            assert(tmp@ =~= Seq::<char>::empty());
        }
        Replacement {
            path: path.to_owned(),
            expected,
            hash: FileHash::of(bytes),
            tmp,
            stage: ReplaceStage::Look,
        }
    }

    /// What the replacement waits for.
    pub fn stage(&self) -> (r: ReplaceStage)
        ensures
            r == self@.stage,
    {
        self.stage
    }

    fn fail(&mut self, error: Error, discard: bool) -> (r: ReplaceStep)
        ensures
            (final(self)@, r@) == replace_failed(old(self)@, error@, discard),
    {
        self.stage = ReplaceStage::Finished;
        ReplaceStep::Failed { error, discard }
    }

    /// Takes the event that the replacement waited for, and says what is to be
    /// done next.
    pub fn advance(&mut self, event: ReplaceEvent) -> (r: ReplaceStep)
        requires
            replace_awaited(old(self)@.stage, event),
        ensures
            (final(self)@, r@) == replace_next(old(self)@, event),
    {
        match event {
            ReplaceEvent::Looked(seen) => {
                match FileState::from_seen(self.path.as_str(), seen) {
                    Err(e) => self.fail(e, false),
                    Ok(s) => match check_state(self.path.as_str(), &self.expected, &s) {
                        Err(e) => self.fail(e, false),
                        Ok(_) => {
                            self.stage = ReplaceStage::Stage;
                            ReplaceStep::Stage
                        },
                    },
                }
            },
            ReplaceEvent::Staged { tmp } => {
                self.tmp = tmp;
                self.stage = ReplaceStage::Recheck;
                ReplaceStep::Recheck
            },
            ReplaceEvent::StageFailed(e) => self.fail(e, false),
            ReplaceEvent::Rechecked(s) => match check_state(
                self.path.as_str(),
                &self.expected,
                &s,
            ) {
                Err(e) => self.fail(e, true),
                Ok(_) => {
                    self.stage = ReplaceStage::Rename;
                    ReplaceStep::Rename
                },
            },
            ReplaceEvent::RecheckFailed(e) => self.fail(e, false),
            ReplaceEvent::Renamed => {
                self.stage = ReplaceStage::Finished;
                ReplaceStep::Done(self.hash)
            },
            ReplaceEvent::RenameFailed { said } => {
                let e: Error = rename_error(
                    self.tmp.as_str(),
                    self.path.as_str(),
                    said.as_str(),
                );
                self.fail(e, true)
            },
        }
    }
}

/// The destination is renamed over only right after a look at its whole content
/// that found it as expected; in particular, content with another digest than
/// the expected one is never replaced. The digest that is given back is that of
/// the new content, after the rename.
pub proof fn law_renames_follow_a_full_check(w: ReplaceView, event: ReplaceEvent)
    requires
        replace_awaited(w.stage, event),
    ensures
        replace_next(w, event).1 is Rename ==> (event matches ReplaceEvent::Rechecked(s)
            && satisfied(w.expected, s@) && (w.expected.digest is Some && s@.digest is Some
            ==> s@.digest == w.expected.digest)),
        replace_next(w, event).1 matches ReplaceStepView::Done(h) ==> event is Renamed && h
            == w.hash,
{
}

/// What is expected of a file must hold on each axis that is known on both sides,
/// and whether there is a file must always agree; nothing else is asked.
pub proof fn law_each_known_axis_must_agree(expected: StateView, actual: StateView)
    ensures
        expected.exists != actual.exists ==> !satisfied(expected, actual),
        expected.size is Some && actual.size is Some && expected.size != actual.size ==> !satisfied(
            expected,
            actual,
        ),
        expected.modified_ms is Some && actual.modified_ms is Some && expected.modified_ms
            != actual.modified_ms ==> !satisfied(expected, actual),
        expected.exists == actual.exists && (expected.size is None || actual.size is None
            || expected.size == actual.size) && (expected.digest is None || actual.digest is None
            || expected.digest == actual.digest) && (expected.modified_ms is None
            || actual.modified_ms is None || expected.modified_ms == actual.modified_ms)
            ==> satisfied(expected, actual),
{
}

/// What a look tells of a path: a file with its length and its time, something
/// that is no file, or nothing.
pub proof fn law_a_look_tells_what_is_there(
    path: Seq<char>,
    len: u64,
    modified_ms: Option<i64>,
    said: String,
)
    ensures
        (seen_state(path, Seen::File { len, modified_ms }) matches Ok(s) && s.exists && s.size == Some(
            len,
        ) && s.modified_ms == modified_ms && s.digest is None),
        (seen_state(path, Seen::Other) matches Ok(s) && s.exists && s.size is None && s.digest
            is None && s.modified_ms is None),
        (seen_state(path, Seen::Missing) matches Ok(s) && !s.exists && s.size is None && s.digest
            is None && s.modified_ms is None),
        seen_state(path, Seen::Failed(said)) == Err::<StateView, error::FaultView>(
            error::fault(ErrorKind::Internal, "stat "@ + path + ": "@ + said@),
        ),
{
}

/// A replacement whose destination stays as expected goes through: it looks,
/// stages the content, looks at the whole file again, renames, and gives back the
/// digest of the new content.
pub proof fn law_an_undisturbed_replacement_goes_through(
    w: ReplaceView,
    seen: Seen,
    tmp: String,
    again: FileState,
)
    requires
        w.stage == ReplaceStage::Look,
        seen_state(w.path, seen) matches Ok(s) && satisfied(w.expected, s),
        satisfied(w.expected, again@),
    ensures
        ({
            let a = replace_next(w, ReplaceEvent::Looked(seen));
            let b = replace_next(a.0, ReplaceEvent::Staged { tmp });
            let c = replace_next(b.0, ReplaceEvent::Rechecked(again));
            let d = replace_next(c.0, ReplaceEvent::Renamed);
            &&& a.1 is Stage && a.0.stage is Stage
            &&& b.1 is Recheck && b.0.stage is Recheck && b.0.tmp == tmp@
            &&& c.1 is Rename && c.0.stage is Rename
            &&& d.1 == ReplaceStepView::Done(w.hash) && d.0.stage is Finished
        }),
{
}

/// A replacement that meets anything else is refused and over. What was staged is
/// removed where the destination was found changed, or could not be renamed over.
pub proof fn law_a_disturbed_replacement_is_refused(
    w: ReplaceView,
    actual: FileState,
    seen: Seen,
    e: Error,
    said: String,
)
    requires
        !satisfied(w.expected, actual@),
    ensures
        ({
            let changed = replace_next(w, ReplaceEvent::Rechecked(actual));
            let unread = replace_next(w, ReplaceEvent::RecheckFailed(e));
            let unstaged = replace_next(w, ReplaceEvent::StageFailed(e));
            let unnamed = replace_next(w, ReplaceEvent::RenameFailed { said });
            let looked = replace_next(w, ReplaceEvent::Looked(seen));
            &&& changed.0.stage is Finished && (changed.1 matches ReplaceStepView::Failed {
                error,
                discard,
            } && error.kind == ErrorKind::Conflict && discard)
            &&& unread.0.stage is Finished && unread.1 == (ReplaceStepView::Failed {
                error: e@,
                discard: false,
            })
            &&& unstaged.0.stage is Finished && unstaged.1 == (ReplaceStepView::Failed {
                error: e@,
                discard: false,
            })
            &&& unnamed.0.stage is Finished && (unnamed.1 matches ReplaceStepView::Failed {
                error,
                discard,
            } && error.kind == ErrorKind::Internal && discard)
            &&& seen is Failed ==> looked.0.stage is Finished && (
            looked.1 matches ReplaceStepView::Failed { error, discard } && error.kind
                == ErrorKind::Internal && !discard)
            &&& (seen_state(w.path, seen) matches Ok(s) && !satisfied(w.expected, s)) ==> {
                &&& looked.0.stage is Finished
                &&& looked.1 matches ReplaceStepView::Failed { error, discard }
                &&& error.kind == ErrorKind::Conflict
                &&& !discard
            }
        }),
{
}

/// A mismatch names the file, what was expected and what was found.
pub proof fn law_a_mismatch_tells_both_states(
    path: Seq<char>,
    expected: StateView,
    actual: StateView,
    n: u64,
    d: Seq<u8>,
)
    ensures
        mismatch_fault(path, expected, actual).kind == ErrorKind::Conflict,
        mismatch_fault(path, expected, actual).message == path
            + " changed since it was staged (cas mismatch; expected "@ + state_text(expected)
            + ", found "@ + state_text(actual) + ")"@,
        state_text(StateView { exists: true, size: Some(n), digest: Some(d), modified_ms: None })
            == "exists="@ + "true"@ + " size="@ + ("Some("@ + text::decimal(n as nat) + ")"@)
            + " digest="@ + ("Some("@ + text::debug_of(digest::hex_of(d)) + ")"@),
        state_text(absent_state()) == "exists="@ + "false"@ + " size="@ + "None"@ + " digest="@
            + "None"@,
{
}

} // verus!

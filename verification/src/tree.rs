//! Bounded walks over a whole tree: what is entered, counted, copied and
//! refused.
//!
//! Nothing is skipped silently. An entry that is gone when it is looked at is
//! no longer part of the tree; one that others change meanwhile is tried again,
//! within a bound; anything else that cannot be handled fails the whole walk.
use vstd::prelude::*;

use crate::digest::FileHash;
use crate::error::{Error, ErrorKind, PathText};
use crate::error;
use crate::order::{path_in_order, sort_by_path, Located};
use crate::order;
use crate::text;
use crate::unixwalk::{copy_name, is_within, same_name};
use crate::unixwalk;
use crate::workspace::{check_identity, FileIdentity, FileMeta};

verus! {

/// How deep a tree may be.
pub const MAX_TREE_WALK_DEPTH: usize = 256;

/// How often one entry is tried while others change it.
pub const WALK_ENTRY_ATTEMPTS: usize = 64;

/// One file of a tree: its path below the root, the digest of its whole content
/// and its size.
#[derive(Debug, Clone, PartialEq, Eq)]
pub struct SnapshotEntry {
    pub path: Vec<u8>,
    pub hash: FileHash,
    pub size: u64,
}

impl Located for SnapshotEntry {
    open spec fn names(&self) -> Seq<Seq<u8>> {
        unixwalk::names(self.path@)
    }

    fn in_order(&self, other: &Self) -> (r: bool) {
        path_in_order(self.path.as_slice(), other.path.as_slice())
    }
}

impl Located for FileMeta {
    open spec fn names(&self) -> Seq<Seq<u8>> {
        unixwalk::names(self.path@)
    }

    fn in_order(&self, other: &Self) -> (r: bool) {
        path_in_order(self.path.as_slice(), other.path.as_slice())
    }
}

/// The entries of a tree in the order of their paths.
pub fn sorted_entries(entries: Vec<SnapshotEntry>) -> (r: Vec<SnapshotEntry>)
    ensures
        order::ordered(r@),
        r@.to_multiset() == entries@.to_multiset(),
{
    sort_by_path(entries)
}

/// A listing of at most `max_entries` of the files found, those found first, in
/// the order of their paths.
pub fn bounded_listing(found: Vec<FileMeta>, max_entries: usize) -> (r: Vec<FileMeta>)
    ensures
        order::ordered(r@),
        r@.to_multiset() == found@.take(
            if found@.len() <= max_entries {
                found@.len() as int
            } else {
                max_entries as int
            },
        ).to_multiset(),
{
    let mut kept: Vec<FileMeta> = found;
    if kept.len() > max_entries {
        kept.truncate(max_entries);
    }
    proof {
        assert(kept@ =~= found@.take(
            if found@.len() <= max_entries {
                found@.len() as int
            } else {
                max_entries as int
            },
        ));
    }
    sort_by_path(kept)
}

// -------------------------------------------------------------------- bounds

/// Accepts the bound of a snapshot.
pub fn check_snapshot_cap(max_entries: usize) -> (r: Result<(), Error>)
    ensures
        r is Ok <==> max_entries >= 1,
        r matches Err(e) ==> e@ == error::fault(
            ErrorKind::Malformed,
            "snapshot max_entries must be >= 1"@,
        ),
{
    if max_entries == 0 {
        return Err(Error::malformed("snapshot max_entries must be >= 1".to_owned()));
    }
    Ok(())
}

/// Accepts the canonical root of a snapshot: a directory.
pub fn check_snapshot_root(root: &str, is_dir: bool) -> (r: Result<(), Error>)
    ensures
        r is Ok <==> is_dir,
        r matches Err(e) ==> e@ == error::fault(
            ErrorKind::NotFound,
            "snapshot root "@ + root@ + " is not a directory"@,
        ),
{
    if !is_dir {
        return Err(Error::not_found(text::cat3("snapshot root ", root, " is not a directory")));
    }
    Ok(())
}

/// Accepts the bounds of a copy.
pub fn check_copy_caps(max_entries: usize, max_total_bytes: u64) -> (r: Result<(), Error>)
    ensures
        r is Ok <==> max_entries >= 1 && max_total_bytes >= 1,
        r matches Err(e) ==> e@ == error::fault(
            ErrorKind::Malformed,
            "copy caps must be >= 1"@,
        ),
{
    if max_entries == 0 || max_total_bytes == 0 {
        return Err(Error::malformed("copy caps must be >= 1".to_owned()));
    }
    Ok(())
}

/// Accepts the canonical roots of a copy: two directories that are not the same.
pub fn check_copy_roots(src: &[u8], src_dir: bool, dst: &[u8], dst_dir: bool) -> (r: Result<
    (),
    Error,
>)
    ensures
        r is Ok <==> src_dir && dst_dir && src@ != dst@,
        r matches Err(e) ==> e@ == if src_dir && dst_dir {
            error::fault(
                ErrorKind::Conflict,
                "copy source and destination are the same tree"@,
            )
        } else {
            error::fault(
                ErrorKind::NotFound,
                "copy source and destination must be directories"@,
            )
        },
{
    if !src_dir || !dst_dir {
        return Err(
            Error::not_found("copy source and destination must be directories".to_owned()),
        );
    }
    if same_name(src, dst) {
        return Err(
            Error::conflict("copy source and destination are the same tree".to_owned()),
        );
    }
    Ok(())
}

/// Accepts a directory at this depth.
pub fn check_depth(depth: usize, rel: &PathText) -> (r: Result<(), Error>)
    ensures
        r is Ok <==> depth <= MAX_TREE_WALK_DEPTH,
        r matches Err(e) ==> e@ == error::fault(
            ErrorKind::Oversized,
            "tree walk exceeded depth 256 at "@ + rel.quoted@,
        ),
{
    if depth <= MAX_TREE_WALK_DEPTH {
        return Ok(());
    }
    Err(
        Error::oversized(
            text::cat2("tree walk exceeded depth 256 at ", rel.quoted.as_str()),
        ),
    )
}

/// How many files a walk has met, and how many it may meet.
#[derive(Debug, Clone, PartialEq, Eq)]
pub struct EntryBudget {
    count: usize,
    max: usize,
}

/// An [`EntryBudget`] by its contents.
pub struct BudgetView {
    pub count: nat,
    pub max: nat,
}

impl View for EntryBudget {
    type V = BudgetView;

    closed spec fn view(&self) -> BudgetView {
        BudgetView { count: self.count as nat, max: self.max as nat }
    }
}

/// The error for a tree with too many files.
pub open spec fn cap_fault(root: Seq<char>, max: nat) -> error::FaultView {
    error::fault(
        ErrorKind::Oversized,
        "tree at "@ + root + " exceeds the "@ + text::decimal(max) + "-entry snapshot cap"@,
    )
}

impl EntryBudget {
    /// The count stays within the bound.
    pub open spec fn well_formed(&self) -> bool {
        self@.count <= self@.max
    }

    /// Nothing met yet.
    pub fn new(max: usize) -> (r: Self)
        ensures
            r.well_formed(),
            r@ == (BudgetView { count: 0, max: max as nat }),
    {
        EntryBudget { count: 0, max }
    }

    /// How many files were met.
    pub fn count(&self) -> (r: usize)
        ensures
            r == self@.count,
    {
        self.count
    }

    /// Counts one file more, unless the bound is reached.
    pub fn take(&mut self, root: &PathText) -> (r: Result<(), Error>)
        requires
            old(self).well_formed(),
        ensures
            final(self).well_formed(),
            final(self)@.max == old(self)@.max,
            r is Ok <==> old(self)@.count < old(self)@.max,
            r is Ok ==> final(self)@.count == old(self)@.count + 1,
            r matches Err(e) ==> final(self)@ == old(self)@ && e@ == cap_fault(
                root.quoted@,
                old(self)@.max,
            ),
    {
        if self.count >= self.max {
            return Err(
                Error::oversized(
                    text::cat5(
                        "tree at ",
                        root.quoted.as_str(),
                        " exceeds the ",
                        text::decimal_text(self.max as u64).as_str(),
                        "-entry snapshot cap",
                    ),
                ),
            );
        }
        self.count = self.count + 1;
        Ok(())
    }

    /// A file that was counted is gone.
    pub fn put_back(&mut self)
        requires
            old(self).well_formed(),
            old(self)@.count >= 1,
        ensures
            final(self).well_formed(),
            final(self)@ == (BudgetView {
                count: (old(self)@.count - 1) as nat,
                max: old(self)@.max,
            }),
    {
        self.count = self.count - 1;
    }

    /// The count of an earlier moment.
    pub fn reset(&mut self, count: usize)
        requires
            count <= old(self)@.max,
        ensures
            final(self).well_formed(),
            final(self)@ == (BudgetView { count: count as nat, max: old(self)@.max }),
    {
        self.count = count;
    }
}

/// How many bytes a copy has taken, and how many it may take.
#[derive(Debug, Clone, PartialEq, Eq)]
pub struct CopyBudget {
    total: u64,
    max: u64,
}

impl View for CopyBudget {
    type V = BudgetView;

    closed spec fn view(&self) -> BudgetView {
        BudgetView { count: self.total as nat, max: self.max as nat }
    }
}

impl CopyBudget {
    /// The total stays within the bound.
    pub open spec fn well_formed(&self) -> bool {
        self@.count <= self@.max
    }

    /// Nothing copied yet.
    pub fn new(max: u64) -> (r: Self)
        ensures
            r.well_formed(),
            r@ == (BudgetView { count: 0, max: max as nat }),
    {
        CopyBudget { total: 0, max }
    }

    /// The same budget once more.
    pub fn duplicate(&self) -> (r: Self)
        ensures
            r@ == self@,
    {
        CopyBudget { total: self.total, max: self.max }
    }

    /// Takes a file of `size` bytes, unless the total would exceed the bound.
    pub fn take(&mut self, size: u64, file: &PathText) -> (r: Result<(), Error>)
        requires
            old(self).well_formed(),
        ensures
            final(self).well_formed(),
            final(self)@.max == old(self)@.max,
            r is Ok <==> old(self)@.count + size <= old(self)@.max,
            r is Ok ==> final(self)@.count == old(self)@.count + size,
            r matches Err(e) ==> final(self)@ == old(self)@ && e@ == error::fault(
                ErrorKind::Oversized,
                "copy of "@ + file.quoted@ + " would exceed the "@ + text::decimal(old(self)@.max)
                    + "-byte total bound"@,
            ),
    {
        if size > self.max - self.total {
            return Err(
                Error::oversized(
                    text::cat5(
                        "copy of ",
                        file.quoted.as_str(),
                        " would exceed the ",
                        text::decimal_text(self.max).as_str(),
                        "-byte total bound",
                    ),
                ),
            );
        }
        self.total = self.total + size;
        Ok(())
    }
}

/// Accepts a copy of `copied` bytes of a file that had `size` bytes.
pub fn check_copied(rel: &PathText, copied: u64, size: u64) -> (r: Result<(), Error>)
    ensures
        r is Ok <==> copied == size,
        r matches Err(e) ==> e@ == error::fault(
            ErrorKind::Conflict,
            rel.quoted@ + " changed size while being copied ("@ + text::decimal(copied as nat)
                + " of "@ + text::decimal(size as nat) + " bytes)"@,
        ),
{
    if copied == size {
        return Ok(());
    }
    let mut m: String = text::cat5(
        rel.quoted.as_str(),
        " changed size while being copied (",
        text::decimal_text(copied).as_str(),
        " of ",
        text::decimal_text(size).as_str(),
    );
    m.append(" bytes)");
    Err(Error::conflict(m))
}

// ------------------------------------------------------------------- entries

/// What a look at an entry found. `Failed` holds what the system says.
#[derive(Debug, Clone, PartialEq, Eq)]
pub enum EntryLook {
    Directory,
    File,
    Link,
    Other,
    Missing,
    Failed(String),
}

/// What is done with an entry.
#[derive(Debug, Clone, Copy, PartialEq, Eq, Structural)]
pub enum EntryPlan {
    /// Nothing: it is no longer there.
    Gone,
    /// It is walked in turn.
    Descend,
    /// It is opened; it has been counted.
    Open,
    /// Its target is looked at.
    Follow,
    /// It is visited.
    Visit,
}

/// What a look at an entry leads to, where `room` says that one more file may be
/// counted.
pub open spec fn entry_plan(
    look: EntryLook,
    room: bool,
    full: Seq<char>,
    rel: Seq<char>,
    cap: error::FaultView,
) -> Result<EntryPlan, error::FaultView> {
    match look {
        EntryLook::Missing => Ok(EntryPlan::Gone),
        EntryLook::Failed(said) => Err(
            error::fault(ErrorKind::Internal, "metadata "@ + full + ": "@ + said@),
        ),
        EntryLook::Directory => Ok(EntryPlan::Descend),
        EntryLook::File => if room {
            Ok(EntryPlan::Open)
        } else {
            Err(cap)
        },
        EntryLook::Link => Ok(EntryPlan::Follow),
        EntryLook::Other => Err(
            error::fault(
                ErrorKind::Internal,
                "refusing to walk unsupported file type at "@ + rel,
            ),
        ),
    }
}

/// What a look at the target of a link leads to.
pub open spec fn target_plan(
    look: EntryLook,
    room: bool,
    target: Seq<char>,
    rel: Seq<char>,
    cap: error::FaultView,
) -> Result<EntryPlan, error::FaultView> {
    match look {
        EntryLook::Link | EntryLook::Other => Err(
            error::fault(
                ErrorKind::Internal,
                "symlink "@ + rel + " resolves to an unsupported file type"@,
            ),
        ),
        _ => entry_plan(look, room, target, rel, cap),
    }
}

/// What is stated of the budget after a plan: a file to be opened was counted,
/// and nothing else was.
pub open spec fn counted(
    before: BudgetView,
    after: BudgetView,
    plan: Result<EntryPlan, error::FaultView>,
) -> bool {
    after == if plan == Ok::<EntryPlan, error::FaultView>(EntryPlan::Open) {
        BudgetView { count: before.count + 1, max: before.max }
    } else {
        before
    }
}

/// Decides what is done with an entry. `full` and `rel` are its path and its path
/// below the root.
pub fn plan_entry(
    budget: &mut EntryBudget,
    look: EntryLook,
    root: &PathText,
    full: &PathText,
    rel: &PathText,
) -> (r: Result<EntryPlan, Error>)
    requires
        old(budget).well_formed(),
    ensures
        final(budget).well_formed(),
        ({
            let plan = entry_plan(
                look,
                old(budget)@.count < old(budget)@.max,
                full.shown@,
                rel.quoted@,
                cap_fault(root.quoted@, old(budget)@.max),
            );
            &&& counted(old(budget)@, final(budget)@, plan)
            &&& match plan {
                Ok(p) => r == Ok::<EntryPlan, Error>(p),
                Err(f) => r matches Err(e) && e@ == f,
            }
        }),
{
    match look {
        EntryLook::Missing => Ok(EntryPlan::Gone),
        EntryLook::Failed(said) => Err(
            Error::internal(
                text::cat4("metadata ", full.shown.as_str(), ": ", said.as_str()),
            ),
        ),
        EntryLook::Directory => Ok(EntryPlan::Descend),
        EntryLook::File => match budget.take(root) {
            Ok(_) => Ok(EntryPlan::Open),
            Err(e) => Err(e),
        },
        EntryLook::Link => Ok(EntryPlan::Follow),
        EntryLook::Other => Err(
            Error::internal(
                text::cat2("refusing to walk unsupported file type at ", rel.quoted.as_str()),
            ),
        ),
    }
}

/// Accepts the canonical target of a link where it lies within the root.
pub fn check_target(root: &[u8], target: &[u8], rel: &PathText, shown: &str) -> (r: Result<
    (),
    Error,
>)
    ensures
        r is Ok <==> unixwalk::within(root@, target@),
        r matches Err(e) ==> e@ == error::fault(
            ErrorKind::Permission,
            "symlink escape rejected: "@ + rel.quoted@ + " -> "@ + shown@,
        ),
{
    if is_within(root, target) {
        return Ok(());
    }
    Err(
        Error::permission(
            text::cat4("symlink escape rejected: ", rel.quoted.as_str(), " -> ", shown),
        ),
    )
}

/// Decides what is done with the target of a link.
pub fn plan_target(
    budget: &mut EntryBudget,
    look: EntryLook,
    root: &PathText,
    target: &PathText,
    rel: &PathText,
) -> (r: Result<EntryPlan, Error>)
    requires
        old(budget).well_formed(),
    ensures
        final(budget).well_formed(),
        ({
            let plan = target_plan(
                look,
                old(budget)@.count < old(budget)@.max,
                target.shown@,
                rel.quoted@,
                cap_fault(root.quoted@, old(budget)@.max),
            );
            &&& counted(old(budget)@, final(budget)@, plan)
            &&& match plan {
                Ok(p) => r == Ok::<EntryPlan, Error>(p),
                Err(f) => r matches Err(e) && e@ == f,
            }
        }),
{
    let odd: bool = match &look {
        EntryLook::Link | EntryLook::Other => true,
        _ => false,
    };
    if odd {
        return Err(
            Error::internal(
                text::cat3(
                    "symlink ",
                    rel.quoted.as_str(),
                    " resolves to an unsupported file type",
                ),
            ),
        );
    }
    plan_entry(budget, look, root, target, rel)
}

/// What came of opening a counted file. `Failed` holds what the system says.
#[derive(Debug, Clone, PartialEq, Eq)]
pub enum FileOpen {
    Opened,
    Missing(String),
    Failed(String),
}

/// Decides what is done with a counted file that was to be opened. A listed file
/// that is gone is taken off the count again; the target of a link that is gone
/// is a failure.
pub fn plan_open(
    budget: &mut EntryBudget,
    outcome: FileOpen,
    linked: bool,
    path: &PathText,
) -> (r: Result<EntryPlan, Error>)
    requires
        old(budget).well_formed(),
        old(budget)@.count >= 1,
    ensures
        final(budget).well_formed(),
        match outcome {
            FileOpen::Opened => r == Ok::<EntryPlan, Error>(EntryPlan::Visit) && final(budget)@
                == old(budget)@,
            FileOpen::Missing(said) => if linked {
                final(budget)@ == old(budget)@ && (r matches Err(e) && e@ == error::fault(
                    ErrorKind::Internal,
                    "open "@ + path.shown@ + ": "@ + said@,
                ))
            } else {
                r == Ok::<EntryPlan, Error>(EntryPlan::Gone) && final(budget)@ == (BudgetView {
                    count: (old(budget)@.count - 1) as nat,
                    max: old(budget)@.max,
                })
            },
            FileOpen::Failed(said) => final(budget)@ == old(budget)@ && (r matches Err(e) && e@
                == error::fault(ErrorKind::Internal, "open "@ + path.shown@ + ": "@ + said@)),
        },
{
    match outcome {
        FileOpen::Opened => Ok(EntryPlan::Visit),
        FileOpen::Missing(said) => if linked {
            Err(
                Error::internal(
                    text::cat4("open ", path.shown.as_str(), ": ", said.as_str()),
                ),
            )
        } else {
            budget.put_back();
            Ok(EntryPlan::Gone)
        },
        FileOpen::Failed(said) => Err(
            Error::internal(text::cat4("open ", path.shown.as_str(), ": ", said.as_str())),
        ),
    }
}

// -------------------------------------------------------------- the machine

/// What an [`EntryWalk`] waits for. `linked` says that the entry is a link whose
/// target is in question.
#[derive(Debug, Clone, Copy, PartialEq, Eq, Structural)]
pub enum EntryStage {
    /// A look at the entry.
    Look,
    /// The canonical target of the link.
    Resolve,
    /// A look at the target.
    Target,
    /// The open file.
    Open { linked: bool },
    /// The identity of the open file.
    Identify { linked: bool },
    /// Nothing.
    Finished,
}

/// What came of an [`EntryStep`].
#[derive(Debug, Clone, PartialEq, Eq)]
pub enum EntryEvent {
    Looked(EntryLook),
    /// The canonical target of the link.
    Resolved { target: Vec<u8>, path: PathText },
    /// The link leads nowhere; this is what the system says. `missing` says that
    /// nothing stands where it leads, or that the link itself is gone.
    NotResolved { missing: bool, said: String },
    Opened(FileOpen),
    /// What was opened, and what its path now names.
    Identified { opened: Option<FileIdentity>, at_path: Option<FileIdentity> },
}

/// What is to be done next: with the target where it says `linked`, else with
/// the entry itself.
#[derive(Debug, Clone, PartialEq, Eq)]
pub enum EntryStep {
    /// Look at the entry, without following it.
    Look,
    /// Find the canonical target of the link.
    Resolve,
    /// Look at the target, without following it.
    LookAtTarget,
    /// Open the file; it has been counted.
    Open { linked: bool },
    /// Find out what was opened and what its path now names.
    Identify { linked: bool },
    /// Done: the directory is to be walked.
    Descend { linked: bool },
    /// Done: the open file is to be visited.
    Visit { linked: bool },
    /// Done: the entry is no longer there.
    Gone,
    /// Done: the entry was removed or replaced meanwhile.
    Raced(Error),
    /// Done: refused.
    Failed(Error),
}

/// An [`EntryStep`] by its contents.
pub enum EntryStepView {
    Look,
    Resolve,
    LookAtTarget,
    Open { linked: bool },
    Identify { linked: bool },
    Descend { linked: bool },
    Visit { linked: bool },
    Gone,
    Raced(error::FaultView),
    Failed(error::FaultView),
}

impl View for EntryStep {
    type V = EntryStepView;

    open spec fn view(&self) -> EntryStepView {
        match self {
            EntryStep::Look => EntryStepView::Look,
            EntryStep::Resolve => EntryStepView::Resolve,
            EntryStep::LookAtTarget => EntryStepView::LookAtTarget,
            EntryStep::Open { linked } => EntryStepView::Open { linked: *linked },
            EntryStep::Identify { linked } => EntryStepView::Identify { linked: *linked },
            EntryStep::Descend { linked } => EntryStepView::Descend { linked: *linked },
            EntryStep::Visit { linked } => EntryStepView::Visit { linked: *linked },
            EntryStep::Gone => EntryStepView::Gone,
            EntryStep::Raced(e) => EntryStepView::Raced(e@),
            EntryStep::Failed(e) => EntryStepView::Failed(e@),
        }
    }
}

/// An [`EntryWalk`] by its contents.
pub struct EntryView {
    /// The canonical root, and the same quoted.
    pub root: Seq<u8>,
    pub root_quoted: Seq<char>,
    /// The path in question, as messages show it: that of the entry, or of the
    /// target.
    pub path: Seq<char>,
    /// The path of the entry below the root, quoted.
    pub rel: Seq<char>,
    /// The target of the link, once it is known.
    pub target: Option<Seq<u8>>,
    pub stage: EntryStage,
}

/// The walk waits for the event.
pub open spec fn entry_awaited(stage: EntryStage, event: EntryEvent) -> bool {
    match event {
        EntryEvent::Looked(_) => stage == EntryStage::Look || stage == EntryStage::Target,
        EntryEvent::Resolved { .. } | EntryEvent::NotResolved { .. } => stage
            == EntryStage::Resolve,
        EntryEvent::Opened(_) => stage is Open,
        EntryEvent::Identified { .. } => stage is Identify,
    }
}

/// The step is the last one of the entry.
pub open spec fn entry_end(w: EntryView, step: EntryStepView) -> (EntryView, EntryStepView) {
    (EntryView { stage: EntryStage::Finished, ..w }, step)
}

/// What a plan leads to.
pub open spec fn entry_planned(
    w: EntryView,
    plan: Result<EntryPlan, error::FaultView>,
    linked: bool,
) -> (EntryView, EntryStepView) {
    match plan {
        Err(f) => entry_end(w, EntryStepView::Failed(f)),
        Ok(EntryPlan::Gone) => entry_end(w, EntryStepView::Gone),
        Ok(EntryPlan::Descend) => entry_end(w, EntryStepView::Descend { linked }),
        Ok(EntryPlan::Open) => (
            EntryView { stage: EntryStage::Open { linked }, ..w },
            EntryStepView::Open { linked },
        ),
        Ok(EntryPlan::Follow) => (
            EntryView { stage: EntryStage::Resolve, ..w },
            EntryStepView::Resolve,
        ),
        Ok(EntryPlan::Visit) => (
            EntryView { stage: EntryStage::Identify { linked }, ..w },
            EntryStepView::Identify { linked },
        ),
    }
}

/// What came of opening a counted file leads to.
pub open spec fn open_plan(outcome: FileOpen, linked: bool, path: Seq<char>) -> Result<
    EntryPlan,
    error::FaultView,
> {
    match outcome {
        FileOpen::Opened => Ok(EntryPlan::Visit),
        FileOpen::Missing(said) => if linked {
            Err(error::fault(ErrorKind::Internal, "open "@ + path + ": "@ + said@))
        } else {
            Ok(EntryPlan::Gone)
        },
        FileOpen::Failed(said) => Err(
            error::fault(ErrorKind::Internal, "open "@ + path + ": "@ + said@),
        ),
    }
}

/// What an event leads to, with the count of the walk.
pub open spec fn entry_next(w: EntryView, budget: BudgetView, event: EntryEvent) -> (
    EntryView,
    EntryStepView,
) {
    let room = budget.count < budget.max;
    let cap = cap_fault(w.root_quoted, budget.max);
    match event {
        EntryEvent::Looked(look) => if w.stage == EntryStage::Look {
            entry_planned(w, entry_plan(look, room, w.path, w.rel, cap), false)
        } else {
            entry_planned(w, target_plan(look, room, w.path, w.rel, cap), true)
        },
        EntryEvent::Resolved { target, path } => if unixwalk::within(w.root, target@) {
            (
                EntryView {
                    path: path.shown@,
                    target: Some(target@),
                    stage: EntryStage::Target,
                    ..w
                },
                EntryStepView::LookAtTarget,
            )
        } else {
            entry_end(
                w,
                EntryStepView::Failed(
                    error::fault(
                        ErrorKind::Permission,
                        "symlink escape rejected: "@ + w.rel + " -> "@ + path.shown@,
                    ),
                ),
            )
        },
        EntryEvent::NotResolved { missing, said } => {
            let fault = error::fault(
                ErrorKind::Permission,
                "symlink "@ + w.rel + " cannot be resolved safely: "@ + said@,
            );
            entry_end(
                w,
                if missing {
                    EntryStepView::Raced(fault)
                } else {
                    EntryStepView::Failed(fault)
                },
            )
        },
        EntryEvent::Opened(outcome) => {
            let linked = w.stage->Open_linked;
            match (open_plan(outcome, linked, w.path), outcome) {
                (Err(fault), FileOpen::Missing(_)) => entry_end(w, EntryStepView::Raced(fault)),
                (plan, _) => entry_planned(w, plan, linked),
            }
        },
        EntryEvent::Identified { opened, at_path } => if opened is Some && opened == at_path {
            entry_end(w, EntryStepView::Visit { linked: w.stage->Identify_linked })
        } else {
            entry_end(
                w,
                EntryStepView::Raced(
                    error::fault(
                        ErrorKind::Permission,
                        w.rel + " changed identity between resolution and open (TOCTOU)"@,
                    ),
                ),
            )
        },
    }
}

/// The count after an event: a file to be opened is counted, and one that was
/// gone when it was opened is taken off again.
pub open spec fn count_next(w: EntryView, budget: BudgetView, event: EntryEvent) -> nat {
    match event {
        EntryEvent::Looked(_) => if entry_next(w, budget, event).1 is Open {
            budget.count + 1
        } else {
            budget.count
        },
        EntryEvent::Opened(FileOpen::Missing(_)) => if w.stage->Open_linked {
            budget.count
        } else {
            (budget.count - 1) as nat
        },
        _ => budget.count,
    }
}

/// A target that is looked at, opened or identified lies within the root.
pub open spec fn entry_sound(w: EntryView) -> bool {
    (w.stage == EntryStage::Target || w.stage == (EntryStage::Open { linked: true }) || w.stage == (
    EntryStage::Identify { linked: true })) ==> (w.target matches Some(t) && unixwalk::within(
        w.root,
        t,
    ))
}

/// One attempt at one entry of a tree.
pub struct EntryWalk {
    root: Vec<u8>,
    root_text: PathText,
    path: PathText,
    rel: PathText,
    target: Option<Vec<u8>>,
    stage: EntryStage,
}

impl View for EntryWalk {
    type V = EntryView;

    closed spec fn view(&self) -> EntryView {
        EntryView {
            root: self.root@,
            root_quoted: self.root_text.quoted@,
            path: self.path.shown@,
            rel: self.rel.quoted@,
            target: match self.target {
                Some(t) => Some(t@),
                None => None,
            },
            stage: self.stage,
        }
    }
}

impl EntryWalk {
    /// Starts an attempt at the entry `path`, which is `rel` below the canonical
    /// `root`; its first step is [`EntryStep::Look`].
    pub fn begin(root: &[u8], root_text: PathText, path: PathText, rel: PathText) -> (r: EntryWalk)
        ensures
            r@ == (EntryView {
                root: root@,
                root_quoted: root_text.quoted@,
                path: path.shown@,
                rel: rel.quoted@,
                target: None,
                stage: EntryStage::Look,
            }),
            entry_sound(r@),
    {
        EntryWalk {
            root: copy_name(root),
            root_text,
            path,
            rel,
            target: None,
            stage: EntryStage::Look,
        }
    }

    /// What the attempt waits for.
    pub fn stage(&self) -> (r: EntryStage)
        ensures
            r == self@.stage,
    {
        self.stage
    }

    /// The canonical target of the link, once it is known.
    pub fn target(&self) -> (r: Option<&[u8]>)
        ensures
            self@.target == match r {
                Some(t) => Some(t@),
                None => None,
            },
    {
        match &self.target {
            Some(t) => Some(t.as_slice()),
            None => None,
        }
    }

    fn end(&mut self, step: EntryStep) -> (r: EntryStep)
        ensures
            (final(self)@, r@) == entry_end(old(self)@, step@),
    {
        self.stage = EntryStage::Finished;
        step
    }

    fn planned(&mut self, plan: Result<EntryPlan, Error>, linked: bool) -> (r: EntryStep)
        ensures
            (final(self)@, r@) == entry_planned(
                old(self)@,
                match plan {
                    Ok(p) => Ok(p),
                    Err(e) => Err(e@),
                },
                linked,
            ),
    {
        match plan {
            Err(e) => self.end(EntryStep::Failed(e)),
            Ok(EntryPlan::Gone) => self.end(EntryStep::Gone),
            Ok(EntryPlan::Descend) => self.end(EntryStep::Descend { linked }),
            Ok(EntryPlan::Open) => {
                self.stage = EntryStage::Open { linked };
                EntryStep::Open { linked }
            },
            Ok(EntryPlan::Follow) => {
                self.stage = EntryStage::Resolve;
                EntryStep::Resolve
            },
            Ok(EntryPlan::Visit) => {
                self.stage = EntryStage::Identify { linked };
                EntryStep::Identify { linked }
            },
        }
    }

    /// Takes the event that the attempt waited for, counts in `budget`, and says
    /// what is to be done next.
    pub fn advance(&mut self, budget: &mut EntryBudget, event: EntryEvent) -> (r: EntryStep)
        requires
            entry_sound(old(self)@),
            entry_awaited(old(self)@.stage, event),
            old(budget).well_formed(),
            old(self)@.stage is Open ==> old(budget)@.count >= 1,
        ensures
            (final(self)@, r@) == entry_next(old(self)@, old(budget)@, event),
            entry_sound(final(self)@),
            final(budget).well_formed(),
            final(budget)@ == (BudgetView {
                count: count_next(old(self)@, old(budget)@, event),
                max: old(budget)@.max,
            }),
    {
        match event {
            EntryEvent::Looked(look) => if self.stage == EntryStage::Look {
                let plan: Result<EntryPlan, Error> = plan_entry(
                    budget,
                    look,
                    &self.root_text,
                    &self.path,
                    &self.rel,
                );
                self.planned(plan, false)
            } else {
                let plan: Result<EntryPlan, Error> = plan_target(
                    budget,
                    look,
                    &self.root_text,
                    &self.path,
                    &self.rel,
                );
                self.planned(plan, true)
            },
            EntryEvent::Resolved { target, path } => match check_target(
                self.root.as_slice(),
                target.as_slice(),
                &self.rel,
                path.shown.as_str(),
            ) {
                Err(e) => self.end(EntryStep::Failed(e)),
                Ok(_) => {
                    self.path = path;
                    self.target = Some(target);
                    self.stage = EntryStage::Target;
                    EntryStep::LookAtTarget
                },
            },
            EntryEvent::NotResolved { missing, said } => {
                let e: Error = Error::permission(
                    text::cat4(
                        "symlink ",
                        self.rel.quoted.as_str(),
                        " cannot be resolved safely: ",
                        said.as_str(),
                    ),
                );
                if missing {
                    self.end(EntryStep::Raced(e))
                } else {
                    self.end(EntryStep::Failed(e))
                }
            },
            EntryEvent::Opened(outcome) => {
                let linked: bool = match self.stage {
                    EntryStage::Open { linked } => linked,
                    _ => false,
                };
                let missing: bool = match &outcome {
                    FileOpen::Missing(_) => true,
                    _ => false,
                };
                match plan_open(budget, outcome, linked, &self.path) {
                    Err(e) => if missing {
                        self.end(EntryStep::Raced(e))
                    } else {
                        self.end(EntryStep::Failed(e))
                    },
                    Ok(plan) => self.planned(Ok(plan), linked),
                }
            },
            EntryEvent::Identified { opened, at_path } => {
                let linked: bool = match self.stage {
                    EntryStage::Identify { linked } => linked,
                    _ => false,
                };
                match check_identity(&self.rel, opened, at_path) {
                    Err(e) => self.end(EntryStep::Raced(e)),
                    Ok(_) => self.end(EntryStep::Visit { linked }),
                }
            },
        }
    }
}

/// A link is followed only to a target within the root, whether a directory to
/// be walked or a file to be visited; and a file is visited only where what was
/// opened is still what its path names.
pub proof fn law_a_tree_walk_stays_within(w: EntryView, budget: BudgetView, event: EntryEvent)
    requires
        entry_sound(w),
        entry_awaited(w.stage, event),
    ensures
        match entry_next(w, budget, event).1 {
            EntryStepView::Descend { linked } => linked ==> (w.target matches Some(t)
                && unixwalk::within(w.root, t)),
            EntryStepView::Visit { linked } => {
                &&& linked ==> (w.target matches Some(t) && unixwalk::within(w.root, t))
                &&& event matches EntryEvent::Identified { opened, at_path }
                &&& opened is Some
                &&& opened == at_path
            },
            _ => true,
        },
{
}

/// How an attempt at an entry went wrong.
#[derive(Debug, Clone, PartialEq, Eq)]
pub enum Setback {
    /// The entry was removed or replaced while it was handled.
    Raced(Error),
    /// It cannot be handled.
    Failed(Error),
}

/// What follows a failed attempt at an entry.
#[derive(Debug, Clone, PartialEq, Eq)]
pub enum Settled {
    /// It is tried once more.
    Again,
    /// The walk fails.
    Failed(Error),
}

/// Decides what follows attempt number `attempt` (from 0) at an entry that went
/// wrong. The count is again what it was before. An entry that was changed
/// meanwhile is tried up to [`WALK_ENTRY_ATTEMPTS`] times; one that cannot be
/// handled fails the walk at once.
pub fn settle(
    budget: &mut EntryBudget,
    before: usize,
    attempt: usize,
    setback: Setback,
) -> (r: Settled)
    requires
        old(budget).well_formed(),
        before <= old(budget)@.max,
        attempt < WALK_ENTRY_ATTEMPTS,
    ensures
        final(budget).well_formed(),
        final(budget)@ == (BudgetView { count: before as nat, max: old(budget)@.max }),
        setback matches Setback::Failed(e) ==> (r matches Settled::Failed(f) && f@ == e@),
        setback matches Setback::Raced(e) ==> if attempt + 1 < WALK_ENTRY_ATTEMPTS {
            r is Again
        } else {
            r matches Settled::Failed(f) && f@ == e@
        },
{
    budget.reset(before);
    match setback {
        Setback::Failed(e) => Settled::Failed(e),
        Setback::Raced(e) => if attempt + 1 < WALK_ENTRY_ATTEMPTS {
            Settled::Again
        } else {
            Settled::Failed(e)
        },
    }
}

/// Only an entry that was removed or replaced meanwhile is tried again: a link
/// or a target that is gone, or an open file that is no longer what its path
/// names. A failed look, an odd file, an escape, a full count and a file that
/// cannot be opened are failures.
pub proof fn law_only_races_are_tried_again(w: EntryView, budget: BudgetView, event: EntryEvent)
    requires
        entry_awaited(w.stage, event),
    ensures
        entry_next(w, budget, event).1 is Raced <==> match event {
            EntryEvent::NotResolved { missing, .. } => missing,
            EntryEvent::Opened(FileOpen::Missing(_)) => w.stage == (EntryStage::Open {
                linked: true,
            }),
            EntryEvent::Identified { opened, at_path } => opened is None || opened != at_path,
            _ => false,
        },
{
}

/// Whatever a look at an entry finds, only a missing entry is passed over; it is
/// counted only where it is to be opened, and never beyond the bound.
pub proof fn law_nothing_is_skipped_silently(
    look: EntryLook,
    before: BudgetView,
    after: BudgetView,
    full: Seq<char>,
    rel: Seq<char>,
    cap: error::FaultView,
)
    requires
        before.count <= before.max,
        counted(before, after, entry_plan(look, before.count < before.max, full, rel, cap)),
    ensures
        ({
            let plan = entry_plan(look, before.count < before.max, full, rel, cap);
            &&& plan == Ok::<EntryPlan, error::FaultView>(EntryPlan::Gone) <==> look is Missing
            &&& after.count <= after.max
            &&& after.count == before.count || plan == Ok::<EntryPlan, error::FaultView>(
                EntryPlan::Open,
            )
        }),
{
}

/// What is done with an entry, by what it is: a directory is entered, a file is
/// opened where there is room for one more, a link is followed, and anything else
/// fails the walk.
pub proof fn law_what_is_done_with_an_entry(
    w: EntryView,
    budget: BudgetView,
    look: EntryLook,
)
    requires
        w.stage == EntryStage::Look,
    ensures
        ({
            let (v, step) = entry_next(w, budget, EntryEvent::Looked(look));
            let full = budget.count >= budget.max;
            &&& look is Missing ==> step is Gone && v.stage is Finished
            &&& look is Directory ==> step == (EntryStepView::Descend { linked: false })
            &&& look is Link ==> step is Resolve && v.stage is Resolve
            &&& look is File && !full ==> step == (EntryStepView::Open { linked: false }) && v.stage
                == (EntryStage::Open { linked: false }) && count_next(
                w,
                budget,
                EntryEvent::Looked(look),
            ) == budget.count + 1
            &&& look is File && full ==> (step matches EntryStepView::Failed(f) && f.kind
                == ErrorKind::Oversized)
            &&& look is Failed || look is Other ==> (step matches EntryStepView::Failed(f) && f.kind
                == ErrorKind::Internal)
            &&& !(look is File) ==> count_next(w, budget, EntryEvent::Looked(look)) == budget.count
        }),
{
}

/// What is done with the target of a link: the same, but that a link to a link is
/// not followed, and what follows knows that a link led there.
pub proof fn law_what_is_done_with_a_target(w: EntryView, budget: BudgetView, look: EntryLook)
    requires
        w.stage == EntryStage::Target,
    ensures
        ({
            let (v, step) = entry_next(w, budget, EntryEvent::Looked(look));
            let full = budget.count >= budget.max;
            &&& look is Missing ==> step is Gone
            &&& look is Directory ==> step == (EntryStepView::Descend { linked: true })
            &&& look is File && !full ==> step == (EntryStepView::Open { linked: true }) && v.stage
                == (EntryStage::Open { linked: true })
            &&& look is File && full ==> (step matches EntryStepView::Failed(f) && f.kind
                == ErrorKind::Oversized)
            &&& look is Link || look is Other || look is Failed ==> (
            step matches EntryStepView::Failed(f) && f.kind == ErrorKind::Internal)
        }),
{
}

/// A link is followed to where it leads, if that is within the root, and an opened
/// file is visited where it is what its path names.
pub proof fn law_how_an_entry_is_reached(
    w: EntryView,
    budget: BudgetView,
    target: Vec<u8>,
    path: PathText,
    identity: FileIdentity,
    linked: bool,
    said: String,
)
    ensures
        w.stage == EntryStage::Resolve ==> {
            let (v, step) = entry_next(w, budget, EntryEvent::Resolved { target, path });
            &&& unixwalk::within(w.root, target@) ==> step is LookAtTarget && v.stage is Target
                && v.target == Some(target@)
            &&& !unixwalk::within(w.root, target@) ==> (step matches EntryStepView::Failed(f)
                && f.kind == ErrorKind::Permission)
        },
        w.stage == (EntryStage::Open { linked }) ==> {
            let (v, step) = entry_next(w, budget, EntryEvent::Opened(FileOpen::Opened));
            let gone = entry_next(w, budget, EntryEvent::Opened(FileOpen::Missing(said))).1;
            let failed = entry_next(w, budget, EntryEvent::Opened(FileOpen::Failed(said))).1;
            &&& step == (EntryStepView::Identify { linked }) && v.stage == (EntryStage::Identify {
                linked,
            })
            &&& linked ==> gone is Raced
            &&& !linked ==> gone is Gone
            &&& failed matches EntryStepView::Failed(f) && f.kind == ErrorKind::Internal
        },
        w.stage == (EntryStage::Identify { linked }) ==> entry_next(
            w,
            budget,
            EntryEvent::Identified { opened: Some(identity), at_path: Some(identity) },
        ).1 == (EntryStepView::Visit { linked }),
{
}

/// How deep and how often a walk goes.
pub proof fn law_how_far_a_walk_goes()
    ensures
        MAX_TREE_WALK_DEPTH == 256,
        WALK_ENTRY_ATTEMPTS == 64,
{
}

/// A file that is to be opened is counted, and nothing else is.
pub proof fn law_opened_files_are_counted(
    before: BudgetView,
    after: BudgetView,
    plan: Result<EntryPlan, error::FaultView>,
)
    requires
        counted(before, after, plan),
    ensures
        after.max == before.max,
        plan == Ok::<EntryPlan, error::FaultView>(EntryPlan::Open) ==> after.count == before.count + 1,
        plan != Ok::<EntryPlan, error::FaultView>(EntryPlan::Open) ==> after.count == before.count,
{
}

} // verus!

//! The walk over a whole tree, entry by entry: which directory is listed next,
//! which entry is looked at, what is read, and what the walk has found.
use vstd::prelude::*;

use crate::digest::FileHash;
use crate::error::{Error, ErrorKind, PathText};
use crate::error;
use crate::order;
use crate::text;
use crate::tree::{
    check_copied, check_depth, settle, sorted_entries, BudgetView, CopyBudget, EntryBudget,
    EntryEvent, EntryLook, EntryStage, EntryStep, EntryStepView, EntryView, EntryWalk, Setback,
    Settled, SnapshotEntry, MAX_TREE_WALK_DEPTH, WALK_ENTRY_ATTEMPTS,
};
use crate::tree;
use crate::unixwalk::copy_name;
use crate::unixwalk;

verus! {

// --------------------------------------------------------------------- events

/// One entry of a listed directory: its name, and its path.
#[derive(Debug, Clone, PartialEq, Eq)]
pub struct ListedEntry {
    pub name: Vec<u8>,
    pub path: Vec<u8>,
}

/// A [`ListedEntry`] by its contents.
pub struct ListedView {
    pub name: Seq<u8>,
    pub path: Seq<u8>,
}

impl View for ListedEntry {
    type V = ListedView;

    open spec fn view(&self) -> ListedView {
        ListedView { name: self.name@, path: self.path@ }
    }
}

/// Listed entries by their contents.
pub open spec fn listed(entries: Seq<ListedEntry>) -> Seq<ListedView> {
    Seq::new(entries.len(), |i: int| entries[i]@)
}

/// A [`SnapshotEntry`] by its contents.
pub struct FoundView {
    pub path: Seq<u8>,
    pub hash: FileHash,
    pub size: u64,
}

/// Entries of a manifest by their contents.
pub open spec fn found_of(entries: Seq<SnapshotEntry>) -> Seq<FoundView> {
    Seq::new(
        entries.len(),
        |i: int|
            FoundView { path: entries[i].path@, hash: entries[i].hash, size: entries[i].size },
    )
}

/// Why a directory could not be listed, and what the system says.
#[derive(Debug, Clone, PartialEq, Eq)]
pub enum ListFault {
    /// It is gone.
    Missing,
    /// Something else stands there now.
    Replaced(String),
    Failed(String),
}

/// What came of a [`TreeStep`].
#[derive(Debug, Clone, PartialEq, Eq)]
pub enum TreeEvent {
    Listed(Vec<ListedEntry>),
    /// The directory, as messages show it, and why it was not listed.
    Unlisted { dir: String, fault: ListFault },
    /// What the look found; the path of the entry, and its path below the root.
    Looked { look: EntryLook, path: PathText, rel: PathText },
    /// What came of a step at the entry.
    Entry(EntryEvent),
    /// The size of the open file, and its path.
    Measured { size: u64, path: PathText },
    /// The whole file was read: how many bytes, and their digest.
    Whole { read: u64, hash: FileHash },
    /// The open file could not be measured, read or copied.
    Unread(Error),
}

/// What is to be done next.
#[derive(Debug, Clone, PartialEq, Eq)]
pub enum TreeStep {
    /// List the directory.
    List { dir: Vec<u8> },
    /// Look at the entry, without following it; `rel` is its path below the root.
    Look { path: Vec<u8>, rel: Vec<u8> },
    /// Find the canonical target of the link.
    Resolve { path: Vec<u8> },
    /// Look at the target of the link, without following it.
    LookAtTarget { path: Vec<u8> },
    /// Open the file.
    Open { path: Vec<u8> },
    /// Find out what was opened and what its path now names.
    Identify { path: Vec<u8> },
    /// Find out the size of the open file.
    Measure { path: Vec<u8> },
    /// Read, or copy, the open file whole.
    Read { rel: Vec<u8> },
    /// Done: what was found, in order.
    Done(Vec<SnapshotEntry>),
    /// Done: refused.
    Failed(Error),
}

/// A [`TreeStep`] by its contents; the manifest is that of the walk.
pub enum TreeStepView {
    List { dir: Seq<u8> },
    Look { path: Seq<u8>, rel: Seq<u8> },
    Resolve { path: Seq<u8> },
    LookAtTarget { path: Seq<u8> },
    Open { path: Seq<u8> },
    Identify { path: Seq<u8> },
    Measure { path: Seq<u8> },
    Read { rel: Seq<u8> },
    Done,
    Failed(error::FaultView),
}

impl View for TreeStep {
    type V = TreeStepView;

    open spec fn view(&self) -> TreeStepView {
        match self {
            TreeStep::List { dir } => TreeStepView::List { dir: dir@ },
            TreeStep::Look { path, rel } => TreeStepView::Look { path: path@, rel: rel@ },
            TreeStep::Resolve { path } => TreeStepView::Resolve { path: path@ },
            TreeStep::LookAtTarget { path } => TreeStepView::LookAtTarget { path: path@ },
            TreeStep::Open { path } => TreeStepView::Open { path: path@ },
            TreeStep::Identify { path } => TreeStepView::Identify { path: path@ },
            TreeStep::Measure { path } => TreeStepView::Measure { path: path@ },
            TreeStep::Read { rel } => TreeStepView::Read { rel: rel@ },
            TreeStep::Done(_) => TreeStepView::Done,
            TreeStep::Failed(e) => TreeStepView::Failed(e@),
        }
    }
}

/// What a [`TreeWalk`] waits for.
#[derive(Debug, Clone, Copy, PartialEq, Eq, Structural)]
pub enum TreeStage {
    /// The entries of a directory.
    List,
    /// A look at an entry.
    Look,
    /// What came of a further step at the entry.
    Entry,
    /// The size of the open file.
    Measure,
    /// The digest of the open file.
    Read,
    /// Nothing.
    Finished,
}

// ---------------------------------------------------------------------- state

/// A directory that is being walked: its path below the root, and the entries
/// that are not done with, the one in question first.
#[verifier::ext_equal]
pub struct FrameView {
    pub rel: Seq<u8>,
    pub entries: Seq<ListedView>,
}

/// A [`TreeWalk`] by its contents.
pub struct TreeView {
    /// The canonical root, and the same quoted.
    pub root: Seq<u8>,
    pub root_quoted: Seq<char>,
    /// The directories on the way, the deepest last.
    pub frames: Seq<FrameView>,
    /// The attempt at the entry in question.
    pub entry: EntryView,
    /// The path of the entry below the root, quoted.
    pub rel: Seq<char>,
    /// The number of the attempt, and the count before it.
    pub attempt: nat,
    pub before: nat,
    pub budget: BudgetView,
    /// The bytes taken, where files are copied.
    pub copied: Option<BudgetView>,
    /// The size of the open file.
    pub size: u64,
    /// The files that were read, in the order in which they were met.
    pub found: Seq<FoundView>,
    pub stage: TreeStage,
}

/// The path of `name` in the directory that is `rel` below the root.
pub open spec fn below(rel: Seq<u8>, name: Seq<u8>) -> Seq<u8> {
    if rel.len() == 0 || rel.last() == 47 {
        rel + name
    } else {
        rel.push(47) + name
    }
}

/// The path below the root of what is in question.
pub open spec fn at_rel(w: TreeView) -> Seq<u8> {
    if w.frames.len() == 0 {
        Seq::empty()
    } else {
        below(w.frames.last().rel, w.frames.last().entries[0].name)
    }
}

/// The path of what is in question: the root, the entry, or the target that the
/// entry was followed to.
pub open spec fn at_path(w: TreeView) -> Seq<u8> {
    if w.frames.len() == 0 {
        w.root
    } else if w.stage != TreeStage::Look && w.entry.target is Some {
        w.entry.target->0
    } else {
        w.frames.last().entries[0].path
    }
}

/// The directories without those at the end that are done with.
pub open spec fn trimmed(frames: Seq<FrameView>) -> Seq<FrameView>
    decreases frames.len(),
{
    if frames.len() > 0 && frames.last().entries.len() == 0 {
        trimmed(frames.drop_last())
    } else {
        frames
    }
}

/// The directories once the entry in question is done with.
pub open spec fn passed(frames: Seq<FrameView>) -> Seq<FrameView> {
    if frames.len() == 0 {
        frames
    } else {
        frames.update(
            frames.len() - 1,
            FrameView { rel: frames.last().rel, entries: frames.last().entries.drop_first() },
        )
    }
}

/// The open file has been counted.
pub open spec fn holds_file(w: TreeView) -> bool {
    w.stage == TreeStage::Measure || w.stage == TreeStage::Read || (w.stage == TreeStage::Entry
        && (w.entry.stage is Open || w.entry.stage is Identify))
}

/// What is kept from event to event: there is an entry in question wherever one is
/// waited for, the count is that of the files found and of the open one, within
/// the bound, and no directory lies deeper than allowed.
pub open spec fn tree_sound(w: TreeView) -> bool {
    &&& w.budget.count <= w.budget.max
    &&& w.copied matches Some(b) ==> b.count <= b.max
    &&& w.attempt < WALK_ENTRY_ATTEMPTS
    &&& w.before <= w.budget.max
    &&& w.frames.len() <= MAX_TREE_WALK_DEPTH + 1
    &&& tree::entry_sound(w.entry)
    &&& w.stage != TreeStage::Finished ==> {
        &&& w.budget.count == w.found.len() + if holds_file(w) {
            1nat
        } else {
            0nat
        }
        &&& w.stage == TreeStage::List && w.frames.len() == 0 || (w.frames.len() > 0
            && w.frames.last().entries.len() > 0)
        &&& w.stage != TreeStage::Look ==> w.before == w.found.len()
        &&& w.stage == TreeStage::List ==> w.frames.len() <= MAX_TREE_WALK_DEPTH
    }
    &&& w.stage == TreeStage::Entry ==> w.entry.root == w.root && w.entry.stage != EntryStage::Look
        && w.entry.stage != EntryStage::Finished
}

/// The walk waits for the event.
pub open spec fn tree_awaited(w: TreeView, event: TreeEvent) -> bool {
    match event {
        TreeEvent::Listed(_) | TreeEvent::Unlisted { .. } => w.stage == TreeStage::List,
        TreeEvent::Looked { .. } => w.stage == TreeStage::Look,
        TreeEvent::Entry(e) => w.stage == TreeStage::Entry && tree::entry_awaited(w.entry.stage, e),
        TreeEvent::Measured { .. } => w.stage == TreeStage::Measure,
        TreeEvent::Whole { .. } => w.stage == TreeStage::Read,
        TreeEvent::Unread(_) => w.stage == TreeStage::Measure || w.stage == TreeStage::Read,
    }
}

// ---------------------------------------------------------------- transitions

/// The walk fails.
pub open spec fn tree_failed(w: TreeView, fault: error::FaultView) -> (TreeView, TreeStepView) {
    (TreeView { stage: TreeStage::Finished, ..w }, TreeStepView::Failed(fault))
}

/// The next entry is looked at; where there is none, the walk is done.
pub open spec fn tree_onward(w: TreeView) -> (TreeView, TreeStepView) {
    let frames = trimmed(w.frames);
    if frames.len() == 0 {
        (TreeView { frames, attempt: 0, stage: TreeStage::Finished, ..w }, TreeStepView::Done)
    } else {
        let v = TreeView { frames, attempt: 0, stage: TreeStage::Look, ..w };
        (v, TreeStepView::Look { path: at_path(v), rel: at_rel(v) })
    }
}

/// The entry was changed meanwhile: it is looked at again, with the count that
/// was, unless it had its chances.
pub open spec fn tree_raced(w: TreeView, fault: error::FaultView) -> (TreeView, TreeStepView) {
    let budget = BudgetView { count: w.before, max: w.budget.max };
    if w.attempt + 1 < WALK_ENTRY_ATTEMPTS {
        let v = TreeView { attempt: w.attempt + 1, budget, stage: TreeStage::Look, ..w };
        (v, TreeStepView::Look { path: at_path(v), rel: at_rel(v) })
    } else {
        tree_failed(TreeView { budget, ..w }, fault)
    }
}

/// The error for a directory that lies too deep.
pub open spec fn depth_fault(rel: Seq<char>) -> error::FaultView {
    error::fault(ErrorKind::Oversized, "tree walk exceeded depth 256 at "@ + rel)
}

/// What an event at the entry in question leads to.
pub open spec fn tree_entry(w: TreeView, event: EntryEvent) -> (TreeView, TreeStepView) {
    let (entry, step) = tree::entry_next(w.entry, w.budget, event);
    let budget = BudgetView {
        count: tree::count_next(w.entry, w.budget, event),
        max: w.budget.max,
    };
    let v = TreeView { entry, budget, stage: TreeStage::Entry, ..w };
    match step {
        EntryStepView::Look | EntryStepView::Resolve => (
            v,
            TreeStepView::Resolve { path: at_path(v) },
        ),
        EntryStepView::LookAtTarget => (v, TreeStepView::LookAtTarget { path: at_path(v) }),
        EntryStepView::Open { .. } => (v, TreeStepView::Open { path: at_path(v) }),
        EntryStepView::Identify { .. } => (v, TreeStepView::Identify { path: at_path(v) }),
        EntryStepView::Descend { .. } => if w.frames.len() <= MAX_TREE_WALK_DEPTH {
            let u = TreeView { stage: TreeStage::List, ..v };
            (u, TreeStepView::List { dir: at_path(u) })
        } else {
            tree_failed(v, depth_fault(w.rel))
        },
        EntryStepView::Visit { .. } => (
            TreeView { stage: TreeStage::Measure, ..v },
            TreeStepView::Measure { path: at_path(v) },
        ),
        EntryStepView::Gone => tree_onward(TreeView { frames: passed(v.frames), ..v }),
        EntryStepView::Raced(fault) => tree_raced(v, fault),
        EntryStepView::Failed(fault) => tree_failed(
            TreeView { budget: BudgetView { count: w.before, max: w.budget.max }, ..v },
            fault,
        ),
    }
}

/// The error for a directory that cannot be listed.
pub open spec fn list_fault(dir: Seq<char>, said: Seq<char>) -> error::FaultView {
    error::fault(ErrorKind::Internal, "read_dir "@ + dir + ": "@ + said)
}

/// What an event leads to.
pub open spec fn tree_next(w: TreeView, event: TreeEvent) -> (TreeView, TreeStepView) {
    match event {
        TreeEvent::Listed(entries) => tree_onward(
            TreeView {
                frames: passed(w.frames).push(
                    FrameView { rel: at_rel(w), entries: listed(entries@) },
                ),
                ..w
            },
        ),
        TreeEvent::Unlisted { dir, fault } => match fault {
            ListFault::Missing => tree_onward(TreeView { frames: passed(w.frames), ..w }),
            ListFault::Replaced(said) => if w.frames.len() == 0 {
                tree_failed(w, list_fault(dir@, said@))
            } else {
                tree_raced(w, list_fault(dir@, said@))
            },
            ListFault::Failed(said) => tree_failed(w, list_fault(dir@, said@)),
        },
        TreeEvent::Looked { look, path, rel } => tree_entry(
            TreeView {
                entry: EntryView {
                    root: w.root,
                    root_quoted: w.root_quoted,
                    path: path.shown@,
                    rel: rel.quoted@,
                    target: None,
                    stage: EntryStage::Look,
                },
                rel: rel.quoted@,
                before: w.budget.count,
                ..w
            },
            EntryEvent::Looked(look),
        ),
        TreeEvent::Entry(e) => tree_entry(w, e),
        TreeEvent::Measured { size, path } => {
            let v = TreeView { size, stage: TreeStage::Read, ..w };
            let step = TreeStepView::Read { rel: at_rel(w) };
            match w.copied {
                None => (v, step),
                Some(b) => if b.count + size <= b.max {
                    (
                        TreeView {
                            copied: Some(BudgetView { count: b.count + size as nat, max: b.max }),
                            ..v
                        },
                        step,
                    )
                } else {
                    tree_failed(w, total_fault(path.quoted@, b.max))
                },
            }
        },
        TreeEvent::Whole { read, hash } => if w.copied is Some && read != w.size {
            tree_failed(w, resized_fault(w.rel, read, w.size))
        } else {
            tree_onward(
                TreeView {
                    frames: passed(w.frames),
                    found: w.found.push(FoundView { path: at_rel(w), hash, size: w.size }),
                    ..w
                },
            )
        },
        TreeEvent::Unread(e) => tree_failed(w, e@),
    }
}

/// The error for a copy of too many bytes.
pub open spec fn total_fault(file: Seq<char>, max: nat) -> error::FaultView {
    error::fault(
        ErrorKind::Oversized,
        "copy of "@ + file + " would exceed the "@ + text::decimal(max) + "-byte total bound"@,
    )
}

/// The error for a file that was `size` bytes long and of which `read` were copied.
pub open spec fn resized_fault(rel: Seq<char>, read: u64, size: u64) -> error::FaultView {
    error::fault(
        ErrorKind::Conflict,
        rel + " changed size while being copied ("@ + text::decimal(read as nat) + " of "@
            + text::decimal(size as nat) + " bytes)"@,
    )
}

/// The manifest holds what was found, each file once, in the order of the paths.
pub open spec fn manifest_of(manifest: Seq<SnapshotEntry>, found: Seq<FoundView>) -> bool {
    order::ordered(manifest) && found_of(manifest).to_multiset() == found.to_multiset()
}

// ---------------------------------------------------------------- the machine

/// A directory on the way: its path below the root, its entries, and how many
/// of them are done with.
struct Frame {
    rel: Vec<u8>,
    entries: Vec<ListedEntry>,
    next: usize,
}

impl View for Frame {
    type V = FrameView;

    closed spec fn view(&self) -> FrameView {
        FrameView {
            rel: self.rel@,
            entries: listed(self.entries@).skip(self.next as int),
        }
    }
}

spec fn frame_views(frames: Seq<Frame>) -> Seq<FrameView> {
    Seq::new(frames.len(), |i: int| frames[i]@)
}

spec fn frames_fit(frames: Seq<Frame>) -> bool {
    forall|i: int| 0 <= i < frames.len() ==> (#[trigger] frames[i]).next <= frames[i].entries@.len()
}

/// A bounded walk over a tree: a snapshot of it or, with a bound on the total of
/// bytes, a copy.
pub struct TreeWalk {
    root: Vec<u8>,
    root_text: PathText,
    frames: Vec<Frame>,
    entry: EntryWalk,
    rel: PathText,
    attempt: usize,
    before: usize,
    budget: EntryBudget,
    copied: Option<CopyBudget>,
    size: u64,
    found: Vec<SnapshotEntry>,
    stage: TreeStage,
}

impl View for TreeWalk {
    type V = TreeView;

    closed spec fn view(&self) -> TreeView {
        TreeView {
            root: self.root@,
            root_quoted: self.root_text.quoted@,
            frames: frame_views(self.frames@),
            entry: self.entry@,
            rel: self.rel.quoted@,
            attempt: self.attempt as nat,
            before: self.before as nat,
            budget: self.budget@,
            copied: match self.copied {
                Some(b) => Some(b@),
                None => None,
            },
            size: self.size,
            found: found_of(self.found@),
            stage: self.stage,
        }
    }
}

fn path_below(rel: &Vec<u8>, name: &Vec<u8>) -> (r: Vec<u8>)
    ensures
        r@ == below(rel@, name@),
{
    let mut path: Vec<u8> = copy_name(rel.as_slice());
    if rel.len() > 0 && rel[rel.len() - 1] != 47 {
        path.push(47);
    }
    let mut i: usize = 0;
    let ghost start = path@;
    while i < name.len()
        invariant
            i <= name.len(),
            path@ == start + name@.take(i as int),
        decreases name.len() - i,
    {
        path.push(name[i]);
        i = i + 1;
        proof {
            assert(name@.take(i as int) =~= name@.take(i - 1).push(name@[i - 1]));
        }
    }
    proof {
        assert(name@.take(name@.len() as int) =~= name@);
    }
    path
}

/// Reordering entries reorders what they hold.
proof fn lemma_found_multiset(a: Seq<SnapshotEntry>, b: Seq<SnapshotEntry>)
    requires
        a.to_multiset() == b.to_multiset(),
    ensures
        found_of(a).to_multiset() == found_of(b).to_multiset(),
    decreases a.len(),
{
    broadcast use vstd::seq_lib::group_to_multiset_ensures;

    assert(a.len() == a.to_multiset().len());
    assert(b.len() == b.to_multiset().len());
    if a.len() == 0 {
        assert(found_of(a) =~= found_of(b));
    } else {
        let x = a[0];
        assert(a.contains(x));
        assert(a.to_multiset().count(x) > 0);
        assert(b.contains(x));
        let j = choose|j: int| 0 <= j < b.len() && b[j] == x;
        assert(a.remove(0).to_multiset() == a.to_multiset().remove(x));
        assert(b.remove(j).to_multiset() == b.to_multiset().remove(x));
        lemma_found_multiset(a.remove(0), b.remove(j));
        let fx = found_of(a)[0];
        assert(found_of(b)[j] == fx);
        assert(found_of(a).remove(0) =~= found_of(a.remove(0)));
        assert(found_of(b).remove(j) =~= found_of(b.remove(j)));
        assert(found_of(a).remove(0).to_multiset() == found_of(a).to_multiset().remove(fx));
        assert(found_of(b).remove(j).to_multiset() == found_of(b).to_multiset().remove(fx));
        assert(found_of(a).contains(fx));
        assert(found_of(b).contains(found_of(b)[j]));
        assert(found_of(a).to_multiset() =~= found_of(a).to_multiset().remove(fx).insert(fx));
        assert(found_of(b).to_multiset() =~= found_of(b).to_multiset().remove(fx).insert(fx));
    }
}

impl TreeWalk {
    spec fn kept(&self) -> bool {
        &&& frames_fit(self.frames@)
        &&& self.budget.well_formed()
        &&& self.copied matches Some(b) ==> b.well_formed()
    }

    /// The invariant of the walk.
    pub closed spec fn well_formed(&self) -> bool {
        self.kept() && tree_sound(self@)
    }

    /// Starts a walk over the canonical `root` that meets at most `max_entries`
    /// files and, where it copies them, takes at most `max_bytes` bytes; the second
    /// part says what is to be done first.
    pub fn begin(
        root: &[u8],
        root_text: PathText,
        max_entries: usize,
        max_bytes: Option<u64>,
    ) -> (r: (TreeWalk, TreeStep))
        ensures
            r.0.well_formed(),
            tree_sound(r.0@),
            tree_starts(
                r.0@,
                root@,
                root_text.quoted@,
                max_entries as nat,
                match max_bytes {
                    Some(n) => Some(n as nat),
                    None => None,
                },
            ),
            r.1@ == (TreeStepView::List { dir: root@ }),
    {
        let nowhere: PathText = PathText { shown: String::new(), quoted: String::new() };
        let copied: Option<CopyBudget> = match max_bytes {
            Some(n) => Some(CopyBudget::new(n)),
            None => None,
        };
        let entry: EntryWalk = EntryWalk::begin(
            root,
            PathText { shown: String::new(), quoted: String::new() },
            PathText { shown: String::new(), quoted: String::new() },
            PathText { shown: String::new(), quoted: String::new() },
        );
        let w: TreeWalk = TreeWalk {
            root: copy_name(root),
            root_text,
            frames: Vec::new(),
            entry,
            rel: nowhere,
            attempt: 0,
            before: 0,
            budget: EntryBudget::new(max_entries),
            copied,
            size: 0,
            found: Vec::new(),
            stage: TreeStage::List,
        };
        proof {
            assert(frame_views(w.frames@) =~= Seq::empty());
            assert(found_of(w.found@) =~= Seq::empty());
        }
        (w, TreeStep::List { dir: copy_name(root) })
    }

    /// What the walk waits for.
    pub fn stage(&self) -> (r: TreeStage)
        ensures
            r == self@.stage,
    {
        self.stage
    }

    /// What the attempt at the entry in question waits for.
    pub fn entry_stage(&self) -> (r: EntryStage)
        ensures
            r == self@.entry.stage,
    {
        self.entry.stage()
    }

    fn here(&self) -> (r: Vec<u8>)
        requires
            frames_fit(self.frames@),
            self@.frames.len() == 0 || self@.frames.last().entries.len() > 0,
        ensures
            r@ == at_path(self@),
    {
        let n: usize = self.frames.len();
        if n == 0 {
            return copy_name(self.root.as_slice());
        }
        if self.stage != TreeStage::Look {
            if let Some(t) = self.entry.target() {
                return copy_name(t);
            }
        }
        let f: &Frame = &self.frames[n - 1];
        proof {
            assert(self@.frames.last() == f@);
            assert(f@.entries[0] == f.entries@[f.next as int]@);
        }
        copy_name(f.entries[f.next].path.as_slice())
    }

    fn here_below(&self) -> (r: Vec<u8>)
        requires
            frames_fit(self.frames@),
            self@.frames.len() == 0 || self@.frames.last().entries.len() > 0,
        ensures
            r@ == at_rel(self@),
    {
        let n: usize = self.frames.len();
        if n == 0 {
            return Vec::new();
        }
        let f: &Frame = &self.frames[n - 1];
        proof {
            assert(self@.frames.last() == f@);
            assert(f@.entries[0] == f.entries@[f.next as int]@);
        }
        path_below(&f.rel, &f.entries[f.next].name)
    }

    fn fail(&mut self, e: Error) -> (r: TreeStep)
        requires
            old(self).kept(),
        ensures
            final(self).kept(),
            (final(self)@, r@) == tree_failed(old(self)@, e@),
            !(r is Done),
    {
        self.stage = TreeStage::Finished;
        TreeStep::Failed(e)
    }

    fn pass(&mut self)
        requires
            old(self).kept(),
            old(self)@.frames.len() > 0 ==> old(self)@.frames.last().entries.len() > 0,
        ensures
            final(self).kept(),
            final(self)@ == (TreeView { frames: passed(old(self)@.frames), ..old(self)@ }),
    {
        let ghost before = self.frames@;
        match self.frames.pop() {
            None => {
                proof {
                    assert(frame_views(self.frames@) =~= passed(frame_views(before)));
                }
            },
            Some(f) => {
                let mut f: Frame = f;
                proof {
                    assert(frame_views(before).last() == f@);
                    assert(before[before.len() - 1] == f);
                    assert(frame_views(before).len() > 0);
                    assert(f@.entries.len() > 0);
                    assert(f.next < f.entries.len());
                    assert(f@.entries.len() == f.entries@.len() - f.next);
                }
                let ghost old_f = f;
                f.next = f.next + 1;
                self.frames.push(f);
                proof {
                    assert(f@.entries =~= old_f@.entries.drop_first());
                    assert(frame_views(self.frames@) =~= passed(frame_views(before)));
                }
            },
        }
    }

    fn onward(&mut self) -> (r: TreeStep)
        requires
            old(self).kept(),
        ensures
            final(self).kept(),
            (final(self)@, r@) == tree_onward(old(self)@),
            r matches TreeStep::Done(m) ==> manifest_of(m@, final(self)@.found),
    {
        self.attempt = 0;
        let ghost start = self@;
        loop
            invariant_except_break
                self.kept(),
                trimmed(self@.frames) == trimmed(start.frames),
                self@ == (TreeView { frames: self@.frames, ..start }),
            ensures
                self.kept(),
                self@ == (TreeView { frames: trimmed(start.frames), ..start }),
                self@.frames.len() == 0 || self@.frames.last().entries.len() > 0,
            decreases self@.frames.len(),
        {
            let n: usize = self.frames.len();
            if n == 0 {
                break;
            }
            let f: &Frame = &self.frames[n - 1];
            proof {
                assert(self@.frames.last() == f@);
                assert(f@.entries.len() == f.entries@.len() - f.next);
            }
            if f.next < f.entries.len() {
                break;
            }
            let ghost before = self.frames@;
            let ghost now = self@;
            let _ = self.frames.pop();
            proof {
                assert(frame_views(self.frames@) =~= frame_views(before).drop_last());
                assert(self@.frames == now.frames.drop_last());
            }
        }
        if self.frames.len() == 0 {
            self.stage = TreeStage::Finished;
            let mut all: Vec<SnapshotEntry> = Vec::new();
            let mut i: usize = 0;
            while i < self.found.len()
                invariant
                    i <= self.found@.len(),
                    all@.len() == i,
                    forall|k: int|
                        0 <= k < i ==> found_of(all@)[k] == #[trigger] found_of(self.found@)[k],
                decreases self.found@.len() - i,
            {
                let e: &SnapshotEntry = &self.found[i];
                let ghost sofar = all@;
                all.push(
                    SnapshotEntry {
                        path: copy_name(e.path.as_slice()),
                        hash: e.hash,
                        size: e.size,
                    },
                );
                proof {
                    assert forall|k: int| 0 <= k < i + 1 implies found_of(all@)[k]
                        == #[trigger] found_of(self.found@)[k] by {
                        if k < i {
                            assert(found_of(sofar)[k] == found_of(self.found@)[k]);
                        }
                    }
                }
                i = i + 1;
            }
            proof {
                assert(found_of(all@) =~= found_of(self.found@));
            }
            let ghost found = all@;
            let manifest: Vec<SnapshotEntry> = sorted_entries(all);
            proof {
                lemma_found_multiset(manifest@, found);
            }
            return TreeStep::Done(manifest);
        }
        self.stage = TreeStage::Look;
        TreeStep::Look { path: self.here(), rel: self.here_below() }
    }

    fn set_back(&mut self, setback: Setback) -> (r: TreeStep)
        requires
            old(self).kept(),
            old(self)@.before <= old(self)@.budget.max,
            old(self)@.attempt < WALK_ENTRY_ATTEMPTS,
            old(self)@.frames.len() > 0,
            old(self)@.frames.last().entries.len() > 0,
        ensures
            final(self).kept(),
            !(r is Done),
            (final(self)@, r@) == match setback {
                Setback::Raced(e) => tree_raced(old(self)@, e@),
                Setback::Failed(e) => tree_failed(
                    TreeView {
                        budget: BudgetView {
                            count: old(self)@.before,
                            max: old(self)@.budget.max,
                        },
                        ..old(self)@
                    },
                    e@,
                ),
            },
    {
        match settle(&mut self.budget, self.before, self.attempt, setback) {
            Settled::Again => {
                self.attempt = self.attempt + 1;
                self.stage = TreeStage::Look;
                TreeStep::Look { path: self.here(), rel: self.here_below() }
            },
            Settled::Failed(e) => self.fail(e),
        }
    }

    fn entry_step(&mut self, event: EntryEvent) -> (r: TreeStep)
        requires
            old(self).kept(),
            old(self)@.frames.len() > 0,
            old(self)@.frames.last().entries.len() > 0,
            old(self)@.before <= old(self)@.budget.max,
            old(self)@.attempt < WALK_ENTRY_ATTEMPTS,
            tree::entry_sound(old(self)@.entry),
            tree::entry_awaited(old(self)@.entry.stage, event),
            old(self)@.entry.stage is Open ==> old(self)@.budget.count >= 1,
        ensures
            final(self).kept(),
            (final(self)@, r@) == tree_entry(old(self)@, event),
            r matches TreeStep::Done(m) ==> manifest_of(m@, final(self)@.found),
    {
        let step: EntryStep = self.entry.advance(&mut self.budget, event);
        self.stage = TreeStage::Entry;
        match step {
            EntryStep::Look | EntryStep::Resolve => TreeStep::Resolve { path: self.here() },
            EntryStep::LookAtTarget => TreeStep::LookAtTarget { path: self.here() },
            EntryStep::Open { .. } => TreeStep::Open { path: self.here() },
            EntryStep::Identify { .. } => TreeStep::Identify { path: self.here() },
            EntryStep::Descend { .. } => match check_depth(self.frames.len(), &self.rel) {
                Ok(_) => {
                    self.stage = TreeStage::List;
                    TreeStep::List { dir: self.here() }
                },
                Err(e) => self.fail(e),
            },
            EntryStep::Visit { .. } => {
                self.stage = TreeStage::Measure;
                TreeStep::Measure { path: self.here() }
            },
            EntryStep::Gone => {
                self.pass();
                self.onward()
            },
            EntryStep::Raced(e) => self.set_back(Setback::Raced(e)),
            EntryStep::Failed(e) => self.set_back(Setback::Failed(e)),
        }
    }

    fn listed(&mut self, entries: Vec<ListedEntry>) -> (r: TreeStep)
        requires
            old(self).kept(),
            old(self)@.frames.len() > 0 ==> old(self)@.frames.last().entries.len() > 0,
        ensures
            final(self).kept(),
            (final(self)@, r@) == tree_next(old(self)@, TreeEvent::Listed(entries)),
            r matches TreeStep::Done(m) ==> manifest_of(m@, final(self)@.found),
    {
        let rel: Vec<u8> = self.here_below();
        self.pass();
        let ghost before = self.frames@;
        let frame: Frame = Frame { rel, entries, next: 0 };
        self.frames.push(frame);
        proof {
            assert(frame@.entries =~= listed(entries@));
            assert(frame_views(self.frames@) =~= frame_views(before).push(frame@));
        }
        self.onward()
    }

    fn unlisted(&mut self, dir: String, fault: ListFault) -> (r: TreeStep)
        requires
            old(self).kept(),
            old(self)@.frames.len() > 0 ==> old(self)@.frames.last().entries.len() > 0,
            old(self)@.before <= old(self)@.budget.max,
            old(self)@.attempt < WALK_ENTRY_ATTEMPTS,
        ensures
            final(self).kept(),
            (final(self)@, r@) == tree_next(old(self)@, (TreeEvent::Unlisted { dir, fault })),
            r matches TreeStep::Done(m) ==> manifest_of(m@, final(self)@.found),
    {
        match fault {
            ListFault::Missing => {
                self.pass();
                self.onward()
            },
            ListFault::Replaced(said) => {
                let e: Error = list_error(dir.as_str(), said.as_str());
                if self.frames.len() == 0 {
                    self.fail(e)
                } else {
                    self.set_back(Setback::Raced(e))
                }
            },
            ListFault::Failed(said) => {
                let e: Error = list_error(dir.as_str(), said.as_str());
                self.fail(e)
            },
        }
    }

    fn measured(&mut self, size: u64, path: PathText) -> (r: TreeStep)
        requires
            old(self).kept(),
            old(self)@.frames.len() > 0,
            old(self)@.frames.last().entries.len() > 0,
        ensures
            final(self).kept(),
            (final(self)@, r@) == tree_next(old(self)@, (TreeEvent::Measured { size, path })),
            !(r is Done),
    {
        let rel: Vec<u8> = self.here_below();
        let mut copied: Option<CopyBudget> = None;
        if let Some(b) = &self.copied {
            let mut b: CopyBudget = b.duplicate();
            match b.take(size, &path) {
                Err(e) => {
                    return self.fail(e);
                },
                Ok(_) => {
                    copied = Some(b);
                },
            }
        }
        self.copied = copied;
        self.size = size;
        self.stage = TreeStage::Read;
        TreeStep::Read { rel }
    }

    fn whole(&mut self, read: u64, hash: FileHash) -> (r: TreeStep)
        requires
            old(self).kept(),
            old(self)@.frames.len() > 0,
            old(self)@.frames.last().entries.len() > 0,
        ensures
            final(self).kept(),
            (final(self)@, r@) == tree_next(old(self)@, (TreeEvent::Whole { read, hash })),
            r matches TreeStep::Done(m) ==> manifest_of(m@, final(self)@.found),
    {
        if self.copied.is_some() {
            if let Err(e) = check_copied(&self.rel, read, self.size) {
                return self.fail(e);
            }
        }
        let path: Vec<u8> = self.here_below();
        let ghost before = self.found@;
        let ghost file = FoundView { path: path@, hash, size: self.size };
        self.found.push(SnapshotEntry { path, hash, size: self.size });
        proof {
            assert(found_of(self.found@) =~= found_of(before).push(file));
        }
        self.pass();
        self.onward()
    }

    /// Takes the event that the walk waited for, and says what is to be done
    /// next.
    pub fn advance(&mut self, event: TreeEvent) -> (r: TreeStep)
        requires
            old(self).well_formed(),
            tree_awaited(old(self)@, event),
        ensures
            final(self).well_formed(),
            tree_sound(final(self)@),
            (final(self)@, r@) == tree_next(old(self)@, event),
            r matches TreeStep::Done(m) ==> manifest_of(m@, final(self)@.found),
    {
        proof {
            law_a_tree_walk_stays_sound(self@, event);
        }
        match event {
            TreeEvent::Listed(entries) => self.listed(entries),
            TreeEvent::Unlisted { dir, fault } => self.unlisted(dir, fault),
            TreeEvent::Looked { look, path, rel } => {
                self.before = self.budget.count();
                self.entry = EntryWalk::begin(
                    self.root.as_slice(),
                    copy_text(&self.root_text),
                    path,
                    copy_text(&rel),
                );
                self.rel = rel;
                self.entry_step(EntryEvent::Looked(look))
            },
            TreeEvent::Entry(e) => self.entry_step(e),
            TreeEvent::Measured { size, path } => self.measured(size, path),
            TreeEvent::Whole { read, hash } => self.whole(read, hash),
            TreeEvent::Unread(e) => self.fail(e),
        }
    }
}

fn copy_text(t: &PathText) -> (r: PathText)
    ensures
        r.shown@ == t.shown@,
        r.quoted@ == t.quoted@,
{
    PathText { shown: t.shown.as_str().to_owned(), quoted: t.quoted.as_str().to_owned() }
}

fn list_error(dir: &str, said: &str) -> (r: Error)
    ensures
        r@ == list_fault(dir@, said@),
{
    Error::internal(text::cat4("read_dir ", dir, ": ", said))
}

proof fn lemma_trimmed(frames: Seq<FrameView>)
    ensures
        trimmed(frames).len() <= frames.len(),
        trimmed(frames) == frames.take(trimmed(frames).len() as int),
        trimmed(frames).len() > 0 ==> trimmed(frames).last().entries.len() > 0,
        forall|k: int|
            trimmed(frames).len() <= k < frames.len() ==> (#[trigger] frames[k]).entries.len() == 0,
    decreases frames.len(),
{
    if frames.len() > 0 && frames.last().entries.len() == 0 {
        lemma_trimmed(frames.drop_last());
        let n = trimmed(frames).len() as int;
        assert(frames.drop_last().take(n) =~= frames.take(n));
        assert forall|k: int| n <= k < frames.len() implies (#[trigger] frames[k]).entries.len()
            == 0 by {
            if k < frames.len() - 1 {
                assert(frames.drop_last()[k] == frames[k]);
            }
        }
    } else {
        assert(frames.take(frames.len() as int) =~= frames);
    }
}

/// The invariant of the walk is kept by every event that it waits for: among
/// other things, the count never exceeds its bound, it is that of the files in
/// the manifest and of the one in hand, and no directory lies deeper than allowed.
pub proof fn law_a_tree_walk_stays_sound(w: TreeView, event: TreeEvent)
    requires
        tree_sound(w),
        tree_awaited(w, event),
    ensures
        tree_sound(tree_next(w, event).0),
{
    lemma_trimmed(passed(w.frames));
    match event {
        TreeEvent::Listed(entries) => {
            lemma_trimmed(
                passed(w.frames).push(FrameView { rel: at_rel(w), entries: listed(entries@) }),
            );
        },
        _ => {},
    }
}

/// A walk that has not begun.
pub open spec fn tree_starts(
    w: TreeView,
    root: Seq<u8>,
    root_quoted: Seq<char>,
    max: nat,
    bytes: Option<nat>,
) -> bool {
    &&& w.root == root
    &&& w.root_quoted == root_quoted
    &&& w.frames.len() == 0
    &&& w.attempt == 0
    &&& w.budget == (BudgetView { count: 0, max })
    &&& w.copied == match bytes {
        Some(n) => Some(BudgetView { count: 0, max: n }),
        None => None,
    }
    &&& w.found.len() == 0
    &&& w.stage == TreeStage::List
}

/// A real failure ends the walk at once, whatever the attempt: a refused entry
/// with its own error, and a directory that lies too deep.
pub proof fn law_a_failure_ends_the_walk(w: TreeView, event: EntryEvent)
    requires
        tree_sound(w),
        tree_awaited(w, TreeEvent::Entry(event)),
    ensures
        ({
            let step = tree::entry_next(w.entry, w.budget, event).1;
            let end = tree_next(w, TreeEvent::Entry(event));
            &&& step matches EntryStepView::Failed(f) ==> end.1 == TreeStepView::Failed(f)
                && end.0.stage == TreeStage::Finished
            &&& step is Descend && w.frames.len() > MAX_TREE_WALK_DEPTH ==> end.1
                == TreeStepView::Failed(depth_fault(w.rel)) && end.0.stage == TreeStage::Finished
        }),
{
}

/// A file enters the manifest once, when it was read whole, under its path below
/// the root; nothing else changes what was found.
pub proof fn law_a_file_is_found_when_it_was_read(w: TreeView, event: TreeEvent)
    requires
        tree_sound(w),
        tree_awaited(w, event),
    ensures
        tree_next(w, event).0.found == match event {
            TreeEvent::Whole { read, hash } => if w.copied is Some && read != w.size {
                w.found
            } else {
                w.found.push(FoundView { path: at_rel(w), hash, size: w.size })
            },
            _ => w.found,
        },
{
}

// ---------------------------------------------------------------- still trees

/// What stands at an entry of a tree that nobody changes.
pub enum TreeNode {
    File { hash: FileHash, size: u64 },
    Directory(Seq<TreeChild>),
}

/// One entry of a directory that nobody changes: its name and path, the canonical
/// target where it is a link, and what stands there.
pub struct TreeChild {
    pub name: Seq<u8>,
    pub path: Seq<u8>,
    pub link: Option<Seq<u8>>,
    pub node: TreeNode,
}

/// Every file below a directory that is `rel` below the root.
pub open spec fn files_below(rel: Seq<u8>, children: Seq<TreeChild>) -> Seq<FoundView>
    decreases children,
{
    if children.len() == 0 {
        Seq::empty()
    } else {
        (match children[0].node {
            TreeNode::File { hash, size } => seq![
                FoundView { path: below(rel, children[0].name), hash, size },
            ],
            TreeNode::Directory(sub) => files_below(below(rel, children[0].name), sub),
        }) + files_below(rel, children.subrange(1, children.len() as int))
    }
}

/// No directory lies deeper than a walk goes, where this one lies at `depth`; and
/// every link leads within the root.
pub open spec fn walkable(root: Seq<u8>, children: Seq<TreeChild>, depth: int) -> bool
    decreases children,
{
    &&& depth <= MAX_TREE_WALK_DEPTH
    &&& children.len() > 0 ==> {
        &&& children[0].link matches Some(t) ==> unixwalk::within(root, t)
        &&& children[0].node matches TreeNode::Directory(sub) ==> walkable(root, sub, depth + 1)
        &&& walkable(root, children.subrange(1, children.len() as int), depth)
    }
}

/// How many events a walk over the entries takes at most.
pub open spec fn effort(children: Seq<TreeChild>) -> nat
    decreases children,
{
    if children.len() == 0 {
        0
    } else {
        8 + (match children[0].node {
            TreeNode::File { .. } => 0,
            TreeNode::Directory(sub) => effort(sub),
        }) + effort(children.subrange(1, children.len() as int))
    }
}

/// The sum of the sizes.
pub open spec fn total_size(files: Seq<FoundView>) -> nat
    decreases files.len(),
{
    if files.len() == 0 {
        0
    } else {
        files[0].size as nat + total_size(files.skip(1))
    }
}

/// The listing shows the entries.
pub open spec fn shows(entries: Seq<ListedView>, children: Seq<TreeChild>) -> bool {
    &&& entries.len() == children.len()
    &&& forall|i: int|
        0 <= i < entries.len() ==> #[trigger] entries[i] == (ListedView {
            name: children[i].name,
            path: children[i].path,
        })
}

/// The files that the directories on the way still hold, where `kids` are the
/// entries of each that are not done with.
pub open spec fn pending(frames: Seq<FrameView>, kids: Seq<Seq<TreeChild>>) -> Seq<FoundView>
    decreases frames.len(),
{
    if frames.len() == 0 {
        Seq::empty()
    } else {
        files_below(frames.last().rel, kids.last()) + pending(
            frames.drop_last(),
            kids.drop_last(),
        )
    }
}

/// How many events those entries still take at most.
pub open spec fn efforts(kids: Seq<Seq<TreeChild>>) -> nat
    decreases kids.len(),
{
    if kids.len() == 0 {
        0
    } else {
        effort(kids.last()) + efforts(kids.drop_last())
    }
}

/// What a look at a node finds.
pub open spec fn look_of(node: TreeNode) -> EntryLook {
    match node {
        TreeNode::File { .. } => EntryLook::File,
        TreeNode::Directory(_) => EntryLook::Directory,
    }
}

/// The walk waits for what the entry in question can give.
pub open spec fn asks(w: TreeView, c: TreeChild) -> bool {
    match w.stage {
        TreeStage::Look | TreeStage::Finished => true,
        TreeStage::List => c.node is Directory,
        TreeStage::Measure => c.node is File,
        TreeStage::Read => c.node matches TreeNode::File { size, .. } && size == w.size,
        TreeStage::Entry => match w.entry.stage {
            EntryStage::Resolve | EntryStage::Target => c.link is Some,
            EntryStage::Open { .. } | EntryStage::Identify { .. } => c.node is File,
            _ => true,
        },
    }
}

/// A directory on the way shows the entries, and the walk may go there.
pub open spec fn fits(root: Seq<u8>, frame: FrameView, children: Seq<TreeChild>, depth: int) -> bool {
    shows(frame.entries, children) && walkable(root, children, depth)
}

/// The directories on the way are those of the tree.
pub open spec fn stands_in(w: TreeView, kids: Seq<Seq<TreeChild>>, tree: Seq<TreeChild>) -> bool {
    if w.stage == TreeStage::List && w.frames.len() == 0 {
        walkable(w.root, tree, 0)
    } else {
        &&& kids.len() == w.frames.len()
        &&& forall|k: int|
            0 <= k < kids.len() ==> #[trigger] fits(w.root, w.frames[k], kids[k], k)
        &&& w.frames.len() > 0 && w.frames.last().entries.len() > 0 ==> asks(w, kids.last()[0])
    }
}

/// The event is what the tree answers.
pub open spec fn answers(
    w: TreeView,
    kids: Seq<Seq<TreeChild>>,
    tree: Seq<TreeChild>,
    event: TreeEvent,
) -> bool {
    let c = kids.last()[0];
    match event {
        TreeEvent::Listed(entries) => shows(
            listed(entries@),
            if w.frames.len() == 0 {
                tree
            } else {
                c.node->Directory_0
            },
        ),
        TreeEvent::Looked { look, .. } => look == if c.link is Some {
            EntryLook::Link
        } else {
            look_of(c.node)
        },
        TreeEvent::Entry(e) => match e {
            EntryEvent::Looked(look) => look == look_of(c.node),
            EntryEvent::Resolved { target, .. } => c.link == Some(target@),
            EntryEvent::NotResolved { .. } => false,
            EntryEvent::Opened(outcome) => outcome is Opened,
            EntryEvent::Identified { opened, at_path } => opened is Some && opened == at_path,
        },
        TreeEvent::Measured { size, .. } => size == c.node->size,
        TreeEvent::Whole { read, hash } => hash == c.node->hash && read == c.node->size,
        TreeEvent::Unlisted { .. } | TreeEvent::Unread(_) => false,
    }
}

/// The entries that are not done with after the event.
pub open spec fn kids_next(
    w: TreeView,
    kids: Seq<Seq<TreeChild>>,
    tree: Seq<TreeChild>,
    event: TreeEvent,
) -> Seq<Seq<TreeChild>> {
    let passed = if kids.len() == 0 {
        kids
    } else {
        kids.update(
            kids.len() - 1,
            kids.last().subrange(1, kids.last().len() as int),
        )
    };
    let after = match event {
        TreeEvent::Listed(_) => if w.frames.len() == 0 {
            seq![tree]
        } else {
            passed.push(kids.last()[0].node->Directory_0)
        },
        TreeEvent::Whole { .. } => passed,
        _ => kids,
    };
    after.take(tree_next(w, event).0.frames.len() as int)
}

/// The files of the tree that the walk has not read yet.
pub open spec fn unread(w: TreeView, kids: Seq<Seq<TreeChild>>, tree: Seq<TreeChild>) -> Seq<
    FoundView,
> {
    if w.stage == TreeStage::List && w.frames.len() == 0 {
        files_below(Seq::empty(), tree)
    } else {
        pending(w.frames, kids)
    }
}

/// How many events the walk takes at most from here.
pub open spec fn events_left(w: TreeView, kids: Seq<Seq<TreeChild>>, tree: Seq<TreeChild>) -> int {
    if w.stage == TreeStage::List && w.frames.len() == 0 {
        effort(tree) as int + 1
    } else {
        efforts(kids) - match w.stage {
            TreeStage::Look | TreeStage::Finished => 0int,
            TreeStage::List => 3,
            TreeStage::Measure => 5,
            TreeStage::Read => 6,
            TreeStage::Entry => match w.entry.stage {
                EntryStage::Resolve => 1,
                EntryStage::Target => 2,
                EntryStage::Open { .. } => 3,
                EntryStage::Identify { .. } => 4,
                _ => 0,
            },
        }
    }
}

/// There is room for the files that are left: in the count and, where they are
/// copied, in the total.
pub open spec fn has_room(w: TreeView, left: Seq<FoundView>) -> bool {
    &&& w.found.len() + left.len() <= w.budget.max
    &&& w.copied matches Some(b) ==> b.count + total_size(left) <= b.max + if w.stage
        == TreeStage::Read {
        w.size as nat
    } else {
        0
    }
}

proof fn lemma_trimmed_pending(frames: Seq<FrameView>, kids: Seq<Seq<TreeChild>>)
    requires
        frames.len() == kids.len(),
        forall|k: int| 0 <= k < kids.len() ==> shows((#[trigger] frames[k]).entries, kids[k]),
    ensures
        pending(trimmed(frames), kids.take(trimmed(frames).len() as int)) == pending(frames, kids),
        efforts(kids.take(trimmed(frames).len() as int)) == efforts(kids),
    decreases frames.len(),
{
    let n = trimmed(frames).len() as int;
    lemma_trimmed(frames);
    if frames.len() > 0 && frames.last().entries.len() == 0 {
        let (f, k) = (frames.drop_last(), kids.drop_last());
        assert forall|i: int| 0 <= i < k.len() implies shows((#[trigger] f[i]).entries, k[i]) by {
            assert(f[i] == frames[i]);
        }
        lemma_trimmed_pending(f, k);
        assert(k.take(n) =~= kids.take(n));
        assert(shows(frames[frames.len() - 1].entries, kids[kids.len() - 1]));
        assert(kids.last().len() == 0);
        assert(files_below(frames.last().rel, kids.last()) =~= Seq::empty());
        assert(pending(frames, kids) =~= pending(f, k));
    } else {
        assert(kids.take(n) =~= kids);
    }
}

proof fn lemma_total_size(a: Seq<FoundView>, b: Seq<FoundView>)
    ensures
        total_size(a + b) == total_size(a) + total_size(b),
    decreases a.len(),
{
    if a.len() == 0 {
        assert(a + b =~= b);
    } else {
        assert((a + b).skip(1) =~= a.skip(1) + b);
        lemma_total_size(a.skip(1), b);
    }
}

/// What one truthful event leads to, short of what the walk makes of it.
pub open spec fn goes_on(
    w: TreeView,
    kids: Seq<Seq<TreeChild>>,
    tree: Seq<TreeChild>,
    event: TreeEvent,
) -> bool {
    let (v, step) = tree_next(w, event);
    let k = kids_next(w, kids, tree, event);
    &&& stands_in(v, k, tree)
    &&& has_room(v, unread(v, k, tree))
    &&& v.found + unread(v, k, tree) == w.found + unread(w, kids, tree)
    &&& !(step is Failed)
    &&& step is Done <==> v.stage == TreeStage::Finished
    &&& 0 <= events_left(v, k, tree) < events_left(w, kids, tree)
}

proof fn lemma_efforts(kids: Seq<Seq<TreeChild>>)
    requires
        kids.len() > 0,
        kids.last().len() > 0,
    ensures
        efforts(kids) >= 8,
{
}

proof fn lemma_still_entry(
    w: TreeView,
    kids: Seq<Seq<TreeChild>>,
    tree: Seq<TreeChild>,
    event: TreeEvent,
)
    requires
        tree_sound(w),
        tree_awaited(w, event),
        stands_in(w, kids, tree),
        answers(w, kids, tree, event),
        has_room(w, unread(w, kids, tree)),
        event is Looked || event is Entry || event is Measured,
    ensures
        goes_on(w, kids, tree, event),
{
    let top = kids.len() - 1;
    let c = kids.last()[0];
    let last = w.frames.last();
    assert(fits(w.root, w.frames[top], kids[top], top));
    assert(last.entries[0] == (ListedView { name: c.name, path: c.path }));
    lemma_efforts(kids);
    assert(kids.take(kids.len() as int) =~= kids);
    let here = (match c.node {
        TreeNode::File { hash, size } => seq![
            FoundView { path: below(last.rel, c.name), hash, size },
        ],
        TreeNode::Directory(sub) => files_below(below(last.rel, c.name), sub),
    });
    let rest = files_below(last.rel, kids.last().subrange(1, kids.last().len() as int));
    let under = pending(w.frames.drop_last(), kids.drop_last());
    assert(unread(w, kids, tree) == here + rest + under);
    lemma_total_size(here, rest + under);
    assert(here + rest + under =~= here + (rest + under));
    if c.node is File {
        assert(here.len() == 1);
        assert(total_size(here.skip(1)) == 0);
        assert(total_size(here) == c.node->size);
        assert(unread(w, kids, tree).len() >= 1);
    } else {
        assert(walkable(w.root, c.node->Directory_0, top + 1));
        assert(w.frames.len() <= MAX_TREE_WALK_DEPTH);
    }
}

/// Going on from directories that are those of the tree.
proof fn lemma_still_onward(
    w: TreeView,
    kids: Seq<Seq<TreeChild>>,
    tree: Seq<TreeChild>,
)
    requires
        w.frames.len() == kids.len(),
        forall|k: int| 0 <= k < kids.len() ==> #[trigger] fits(w.root, w.frames[k], kids[k], k),
    ensures
        ({
            let (v, step) = tree_onward(w);
            let k = kids.take(v.frames.len() as int);
            &&& stands_in(v, k, tree)
            &&& unread(v, k, tree) == pending(w.frames, kids)
            &&& !(step is Failed)
            &&& step is Done <==> v.stage == TreeStage::Finished
            &&& events_left(v, k, tree) == efforts(kids)
            &&& v.stage == TreeStage::Finished || v.stage == TreeStage::Look
        }),
{
    let frames = trimmed(w.frames);
    let n = frames.len() as int;
    lemma_trimmed(w.frames);
    assert forall|k: int| 0 <= k < kids.len() implies shows(
        (#[trigger] w.frames[k]).entries,
        kids[k],
    ) by {
        assert(fits(w.root, w.frames[k], kids[k], k));
    }
    lemma_trimmed_pending(w.frames, kids);
    assert forall|k: int| 0 <= k < n implies #[trigger] fits(
        w.root,
        frames[k],
        kids.take(n)[k],
        k,
    ) by {
        assert(fits(w.root, w.frames[k], kids[k], k));
    }
}

proof fn lemma_still_read(
    w: TreeView,
    kids: Seq<Seq<TreeChild>>,
    tree: Seq<TreeChild>,
    event: TreeEvent,
)
    requires
        tree_sound(w),
        tree_awaited(w, event),
        stands_in(w, kids, tree),
        answers(w, kids, tree, event),
        has_room(w, unread(w, kids, tree)),
        event is Listed || event is Whole,
        w.frames.len() > 0,
    ensures
        goes_on(w, kids, tree, event),
{
    let top = kids.len() - 1;
    let c = kids.last()[0];
    let last = w.frames.last();
    assert(fits(w.root, w.frames[top], kids[top], top));
    assert(last.entries[0] == (ListedView { name: c.name, path: c.path }));
    let rest_kids = kids.last().subrange(1, kids.last().len() as int);
    let less = kids.update(top, rest_kids);
    let frames = passed(w.frames);
    assert(less.drop_last() =~= kids.drop_last());
    assert(frames.drop_last() =~= w.frames.drop_last());
    assert forall|k: int| 0 <= k < less.len() implies #[trigger] fits(
        w.root,
        frames[k],
        less[k],
        k,
    ) by {
        assert(fits(w.root, w.frames[k], kids[k], k));
        if k == top {
            assert(walkable(w.root, rest_kids, top));
            assert forall|j: int| 0 <= j < frames[k].entries.len() implies #[trigger] frames[k].entries[j]
                == (ListedView { name: rest_kids[j].name, path: rest_kids[j].path }) by {
                assert(last.entries[j + 1] == (ListedView {
                    name: kids.last()[j + 1].name,
                    path: kids.last()[j + 1].path,
                }));
            }
        }
    }
    let rel = below(last.rel, c.name);
    let rest = files_below(last.rel, rest_kids);
    let under = pending(w.frames.drop_last(), kids.drop_last());
    assert(pending(frames, less) == rest + under);
    assert(efforts(less) == effort(rest_kids) + efforts(kids.drop_last()));
    match event {
        TreeEvent::Whole { read, hash } => {
            let file = FoundView { path: rel, hash, size: w.size };
            let v = TreeView { frames, found: w.found.push(file), ..w };
            lemma_still_onward(v, less, tree);
            assert(unread(w, kids, tree) =~= seq![file] + (rest + under));
            assert(v.found + (rest + under) =~= w.found + (seq![file] + (rest + under)));
            lemma_total_size(seq![file], rest + under);
            assert(seq![file].skip(1) =~= Seq::<FoundView>::empty());
            assert(total_size(seq![file].skip(1)) == 0);
            assert(total_size(seq![file]) == w.size);
        },
        TreeEvent::Listed(entries) => {
            let sub = c.node->Directory_0;
            let frame = FrameView { rel, entries: listed(entries@) };
            let grown = frames.push(frame);
            let more = less.push(sub);
            assert(walkable(w.root, sub, top + 1));
            assert forall|k: int| 0 <= k < more.len() implies #[trigger] fits(
                w.root,
                grown[k],
                more[k],
                k,
            ) by {
                if k <= top {
                    assert(fits(w.root, frames[k], less[k], k));
                }
            }
            assert(grown.drop_last() =~= frames);
            assert(more.drop_last() =~= less);
            let v = TreeView { frames: grown, ..w };
            lemma_still_onward(v, more, tree);
            assert(unread(w, kids, tree) =~= files_below(rel, sub) + (rest + under));
            assert(pending(grown, more) =~= files_below(rel, sub) + (rest + under));
        },
        _ => {},
    }
}

/// A truthful event leads on: what was found and what is not read yet stay the
/// files of the tree, nothing fails, and fewer events are left.
proof fn lemma_still_step(
    w: TreeView,
    kids: Seq<Seq<TreeChild>>,
    tree: Seq<TreeChild>,
    event: TreeEvent,
)
    requires
        tree_sound(w),
        tree_awaited(w, event),
        stands_in(w, kids, tree),
        answers(w, kids, tree, event),
        has_room(w, unread(w, kids, tree)),
    ensures
        goes_on(w, kids, tree, event),
{
    if w.frames.len() == 0 {
        match event {
            TreeEvent::Listed(entries) => {
                let frame = FrameView { rel: Seq::empty(), entries: listed(entries@) };
                let frames = seq![frame];
                assert(passed(w.frames).push(frame) =~= frames);
                let v = TreeView { frames, ..w };
                assert(fits(w.root, frames[0], seq![tree][0], 0));
                lemma_still_onward(v, seq![tree], tree);
                assert(frames.drop_last() =~= Seq::empty());
                assert(seq![tree].drop_last() =~= Seq::empty());
                assert(pending(frames.drop_last(), seq![tree].drop_last()) =~= Seq::empty());
                assert(pending(frames, seq![tree]) =~= files_below(Seq::empty(), tree));
                assert(efforts(seq![tree].drop_last()) == 0);
            },
            _ => {},
        }
    } else if event is Listed || event is Whole {
        lemma_still_read(w, kids, tree, event);
    } else {
        lemma_still_entry(w, kids, tree, event);
    }
}

/// The walk after a run of events, and the last step.
pub open spec fn walked(w: TreeView, step: TreeStepView, events: Seq<TreeEvent>) -> (
    TreeView,
    TreeStepView,
)
    decreases events.len(),
{
    if events.len() == 0 {
        (w, step)
    } else {
        let next = tree_next(w, events[0]);
        walked(next.0, next.1, events.skip(1))
    }
}

/// Every event of the run is waited for, and is what the tree answers.
pub open spec fn told(
    w: TreeView,
    kids: Seq<Seq<TreeChild>>,
    tree: Seq<TreeChild>,
    events: Seq<TreeEvent>,
) -> bool
    decreases events.len(),
{
    events.len() > 0 ==> {
        &&& tree_awaited(w, events[0])
        &&& answers(w, kids, tree, events[0])
        &&& told(
            tree_next(w, events[0]).0,
            kids_next(w, kids, tree, events[0]),
            tree,
            events.skip(1),
        )
    }
}

proof fn lemma_still_run(
    w: TreeView,
    step: TreeStepView,
    kids: Seq<Seq<TreeChild>>,
    tree: Seq<TreeChild>,
    events: Seq<TreeEvent>,
)
    requires
        tree_sound(w),
        stands_in(w, kids, tree),
        has_room(w, unread(w, kids, tree)),
        !(step is Failed),
        step is Done <==> w.stage == TreeStage::Finished,
        step is Done ==> unread(w, kids, tree).len() == 0,
        0 <= events_left(w, kids, tree),
        told(w, kids, tree, events),
    ensures
        ({
            let (v, last) = walked(w, step, events);
            &&& !(last is Failed)
            &&& last is Done ==> v.found == w.found + unread(w, kids, tree)
            &&& events.len() <= events_left(w, kids, tree)
        }),
    decreases events.len(),
{
    if events.len() == 0 {
        if step is Done {
            assert(w.found + unread(w, kids, tree) =~= w.found);
        }
    } else {
        let (v, next) = tree_next(w, events[0]);
        let k = kids_next(w, kids, tree, events[0]);
        law_a_tree_walk_stays_sound(w, events[0]);
        lemma_still_step(w, kids, tree, events[0]);
        if next is Done {
            lemma_done_is_all(w, events[0]);
        }
        lemma_still_run(v, next, k, tree, events.skip(1));
    }
}

proof fn lemma_done_is_all(w: TreeView, event: TreeEvent)
    requires
        tree_next(w, event).1 is Done,
    ensures
        tree_next(w, event).0.frames.len() == 0,
        tree_next(w, event).0.stage == TreeStage::Finished,
{
}

/// A walk over a tree that nobody changes finds every file of it, each once under
/// its path with its size and digest, and nothing else: where the tree is no
/// deeper than a walk goes, its links lead within the root, and its files are
/// within the bounds, the walk never fails, takes no more events than the tree
/// accounts for, and is done with exactly those files.
pub proof fn law_a_still_tree_is_found_whole(
    w: TreeView,
    root: Seq<u8>,
    root_quoted: Seq<char>,
    max: nat,
    bytes: Option<nat>,
    tree: Seq<TreeChild>,
    events: Seq<TreeEvent>,
)
    requires
        tree_sound(w),
        tree_starts(w, root, root_quoted, max, bytes),
        walkable(root, tree, 0),
        files_below(Seq::empty(), tree).len() <= max,
        bytes matches Some(n) ==> total_size(files_below(Seq::empty(), tree)) <= n,
        told(w, Seq::empty(), tree, events),
    ensures
        ({
            let (v, last) = walked(w, TreeStepView::List { dir: root }, events);
            &&& !(last is Failed)
            &&& last is Done ==> v.found == files_below(Seq::empty(), tree)
            &&& events.len() <= effort(tree) + 1
        }),
{
    lemma_still_run(w, TreeStepView::List { dir: root }, Seq::empty(), tree, events);
    assert(w.found + files_below(Seq::empty(), tree) =~= files_below(Seq::empty(), tree));
}

/// No two files have the same path.
pub open spec fn distinct(files: Seq<FoundView>) -> bool {
    forall|i: int, j: int|
        0 <= i < j < files.len() ==> unixwalk::names((#[trigger] files[i]).path)
            != unixwalk::names((#[trigger] files[j]).path)
}

proof fn lemma_distinct_members(files: Seq<FoundView>, a: FoundView, b: FoundView)
    requires
        distinct(files),
        files.contains(a),
        files.contains(b),
        unixwalk::names(a.path) == unixwalk::names(b.path),
    ensures
        a == b,
{
    let i = choose|i: int| 0 <= i < files.len() && files[i] == a;
    let j = choose|j: int| 0 <= j < files.len() && files[j] == b;
    if i < j {
        assert(unixwalk::names(files[i].path) != unixwalk::names(files[j].path));
    } else if j < i {
        assert(unixwalk::names(files[j].path) != unixwalk::names(files[i].path));
    }
}

proof fn lemma_ordered_unique(a: Seq<SnapshotEntry>, b: Seq<SnapshotEntry>, files: Seq<FoundView>)
    requires
        order::ordered(a),
        order::ordered(b),
        found_of(a).to_multiset() == found_of(b).to_multiset(),
        distinct(files),
        forall|i: int| 0 <= i < a.len() ==> files.contains(#[trigger] found_of(a)[i]),
    ensures
        found_of(a) == found_of(b),
    decreases a.len(),
{
    broadcast use vstd::seq_lib::group_to_multiset_ensures;

    let (x, y) = (found_of(a), found_of(b));
    assert(x.len() == x.to_multiset().len());
    assert(y.len() == y.to_multiset().len());
    if a.len() == 0 {
        assert(x =~= y);
    } else {
        assert(x.contains(x[0]));
        assert(x.to_multiset().count(x[0]) > 0);
        assert(y.contains(x[0]));
        assert(y.contains(y[0]));
        assert(y.to_multiset().count(y[0]) > 0);
        assert(x.contains(y[0]));
        let j = choose|j: int| 0 <= j < y.len() && y[j] == x[0];
        let i = choose|i: int| 0 <= i < x.len() && x[i] == y[0];
        let (p, q) = (unixwalk::names(x[0].path), unixwalk::names(y[0].path));
        order::law_path_order_is_total(p, p);
        if i > 0 {
            assert(order::path_le(order::Located::names(&a[0]), order::Located::names(&a[i])));
        }
        if j > 0 {
            assert(order::path_le(order::Located::names(&b[0]), order::Located::names(&b[j])));
        }
        assert(order::path_le(p, q));
        assert(order::path_le(q, p));
        order::law_path_order_is_total(p, q);
        assert(files.contains(x[0]));
        assert(files.contains(x[i]));
        lemma_distinct_members(files, x[0], y[0]);
        assert(found_of(a.remove(0)) =~= x.remove(0));
        assert(found_of(b.remove(0)) =~= y.remove(0));
        assert forall|k: int| 0 <= k < a.remove(0).len() implies files.contains(
            #[trigger] found_of(a.remove(0))[k],
        ) by {
            assert(found_of(a)[k + 1] == found_of(a.remove(0))[k]);
        }
        lemma_ordered_unique(a.remove(0), b.remove(0), files);
        assert(x =~= seq![x[0]] + x.remove(0));
        assert(y =~= seq![y[0]] + y.remove(0));
    }
}

/// A manifest is determined by the files that were found, in whatever order they
/// were met.
pub proof fn law_a_manifest_is_determined(
    a: Seq<SnapshotEntry>,
    found: Seq<FoundView>,
    b: Seq<SnapshotEntry>,
    found_too: Seq<FoundView>,
)
    requires
        manifest_of(a, found),
        manifest_of(b, found_too),
        found.to_multiset() == found_too.to_multiset(),
        distinct(found),
    ensures
        found_of(a) == found_of(b),
{
    broadcast use vstd::seq_lib::group_to_multiset_ensures;

    assert forall|i: int| 0 <= i < a.len() implies found.contains(#[trigger] found_of(a)[i]) by {
        assert(found_of(a).contains(found_of(a)[i]));
        assert(found_of(a).to_multiset().count(found_of(a)[i]) > 0);
        assert(found.to_multiset().count(found_of(a)[i]) > 0);
    }
    lemma_ordered_unique(a, b, found);
}

/// The run of events is a whole walk over a tree that nobody changes, within the
/// bounds, and ends with the manifest.
pub open spec fn walk_gives(
    w: TreeView,
    max: nat,
    bytes: Option<nat>,
    tree: Seq<TreeChild>,
    events: Seq<TreeEvent>,
    manifest: Seq<SnapshotEntry>,
) -> bool {
    let files = files_below(Seq::empty(), tree);
    let (v, last) = walked(w, TreeStepView::List { dir: w.root }, events);
    &&& tree_sound(w)
    &&& tree_starts(w, w.root, w.root_quoted, max, bytes)
    &&& walkable(w.root, tree, 0)
    &&& files.len() <= max
    &&& bytes matches Some(n) ==> total_size(files) <= n
    &&& told(w, Seq::empty(), tree, events)
    &&& last is Done
    &&& manifest_of(manifest, v.found)
}

/// What a copy gives is the snapshot of its source and that of its destination:
/// where neither tree is changed by others, and the files of the destination are
/// those that the copy read, the three manifests are the same.
pub proof fn law_a_copy_is_its_source(
    copying: TreeView,
    max: nat,
    bytes: nat,
    source: Seq<TreeChild>,
    copy_events: Seq<TreeEvent>,
    copied: Seq<SnapshotEntry>,
    before: TreeView,
    before_max: nat,
    before_events: Seq<TreeEvent>,
    of_source: Seq<SnapshotEntry>,
    after: TreeView,
    after_max: nat,
    destination: Seq<TreeChild>,
    after_events: Seq<TreeEvent>,
    of_destination: Seq<SnapshotEntry>,
)
    requires
        walk_gives(copying, max, Some(bytes), source, copy_events, copied),
        walk_gives(before, before_max, None, source, before_events, of_source),
        walk_gives(after, after_max, None, destination, after_events, of_destination),
        files_below(Seq::empty(), destination).to_multiset() == walked(
            copying,
            TreeStepView::List { dir: copying.root },
            copy_events,
        ).0.found.to_multiset(),
        distinct(files_below(Seq::empty(), source)),
    ensures
        found_of(copied) == found_of(of_source),
        found_of(copied) == found_of(of_destination),
{
    let files = files_below(Seq::empty(), source);
    law_a_still_tree_is_found_whole(
        copying,
        copying.root,
        copying.root_quoted,
        max,
        Some(bytes),
        source,
        copy_events,
    );
    law_a_still_tree_is_found_whole(
        before,
        before.root,
        before.root_quoted,
        before_max,
        None,
        source,
        before_events,
    );
    law_a_still_tree_is_found_whole(
        after,
        after.root,
        after.root_quoted,
        after_max,
        None,
        destination,
        after_events,
    );
    law_a_manifest_is_determined(copied, files, of_source, files);
    law_a_manifest_is_determined(
        copied,
        files,
        of_destination,
        files_below(Seq::empty(), destination),
    );
}

/// An entry stands below its directory, with one slash between them; the entries
/// of the root stand by their names alone.
pub proof fn law_an_entry_stands_below_its_directory(rel: Seq<u8>, name: Seq<u8>)
    ensures
        below(Seq::empty(), name) == name,
        rel.len() > 0 && rel.last() != 47 ==> below(rel, name) == rel + seq![47u8] + name,
        rel.len() > 0 && rel.last() == 47 ==> below(rel, name) == rel + name,
{
    assert(Seq::<u8>::empty() + name =~= name);
    assert(rel.push(47) + name =~= rel + seq![47u8] + name);
}

/// The files below a directory are those among its entries, under their names, and
/// those below its directories, in the order of the entries.
pub proof fn law_the_files_below_a_directory(
    rel: Seq<u8>,
    child: TreeChild,
    rest: Seq<TreeChild>,
)
    ensures
        files_below(rel, Seq::empty()) == Seq::<FoundView>::empty(),
        child.node matches TreeNode::File { hash, size } ==> files_below(rel, seq![child] + rest)
            == seq![FoundView { path: below(rel, child.name), hash, size }] + files_below(rel, rest),
        child.node matches TreeNode::Directory(sub) ==> files_below(rel, seq![child] + rest)
            == files_below(below(rel, child.name), sub) + files_below(rel, rest),
{
    let all = seq![child] + rest;
    assert(all.subrange(1, all.len() as int) =~= rest);
}

/// An entry that was changed while it was handled is looked at again, with the
/// count as it was, up to 64 times in all; then the walk fails with its error.
pub proof fn law_a_changed_entry_is_tried_again(w: TreeView, fault: error::FaultView)
    ensures
        ({
            let (v, step) = tree_raced(w, fault);
            &&& w.attempt < 63 ==> v.attempt == w.attempt + 1 && v.stage == TreeStage::Look
                && v.budget.count == w.before && v.frames == w.frames && v.found == w.found && step
                is Look
            &&& w.attempt >= 63 ==> v.stage == TreeStage::Finished && step == TreeStepView::Failed(
                fault,
            )
        }),
{
}

/// A directory that vanished is passed over; one that cannot be listed fails the
/// walk, and so does a root that is none.
pub proof fn law_what_cannot_be_listed(w: TreeView, dir: String, said: String)
    ensures
        tree_next(w, TreeEvent::Unlisted { dir, fault: ListFault::Missing }) == tree_onward(
            TreeView { frames: passed(w.frames), ..w },
        ),
        (tree_next(w, TreeEvent::Unlisted { dir, fault: ListFault::Failed(said) }).1
            matches TreeStepView::Failed(f) && f.kind == ErrorKind::Internal),
        w.frames.len() == 0 ==> (tree_next(
            w,
            TreeEvent::Unlisted { dir, fault: ListFault::Replaced(said) },
        ).1 matches TreeStepView::Failed(f) && f.kind == ErrorKind::Internal),
        w.frames.len() > 0 ==> tree_next(
            w,
            TreeEvent::Unlisted { dir, fault: ListFault::Replaced(said) },
        ) == tree_raced(w, list_fault(dir@, said@)),
{
}

/// A copy counts its bytes before it takes a file, and refuses one that would go
/// beyond its bound; a file that changed its size meanwhile is a conflict.
pub proof fn law_a_copy_keeps_to_its_bound(
    w: TreeView,
    bound: BudgetView,
    size: u64,
    path: PathText,
    read: u64,
    hash: FileHash,
)
    requires
        w.copied == Some(bound),
    ensures
        ({
            let (v, step) = tree_next(w, TreeEvent::Measured { size, path });
            &&& bound.count + size <= bound.max ==> step == (TreeStepView::Read { rel: at_rel(w) })
                && v.copied == Some(BudgetView { count: bound.count + size as nat, max: bound.max })
                && v.size == size
            &&& bound.count + size > bound.max ==> v.stage == TreeStage::Finished && (
            step matches TreeStepView::Failed(f) && f.kind == ErrorKind::Oversized)
        }),
        read != w.size ==> (tree_next(w, TreeEvent::Whole { read, hash }).1
            matches TreeStepView::Failed(f) && f.kind == ErrorKind::Conflict),
{
}

} // verus!

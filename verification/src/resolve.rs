//! Resolving a caller's path to a place in the workspace.
//!
//! [`Resolver`] finds the canonical path of an entry, or of one that does not
//! exist yet in a directory that does. [`Creator`] does the same and has the
//! missing directories made. Neither touches a file system: they say what is
//! to be done next and are told what came of it. Whatever they end with lies
//! below the root.
use vstd::prelude::*;

use crate::error::{Error, ErrorKind, PathText};
use crate::error;
use crate::text;
use crate::unixwalk::{copy_name, goes_up, is_parent, is_within, split_path};
use crate::unixwalk;

verus! {

// -------------------------------------------------------------------- paths

/// `path` as seen from `base`.
pub open spec fn joined(base: Seq<u8>, path: Seq<u8>) -> Seq<u8> {
    if unixwalk::absolute(path) {
        path
    } else if base.len() > 0 && base.last() != 47 {
        base + seq![47u8] + path
    } else {
        base + path
    }
}

fn append(out: &mut Vec<u8>, s: &[u8])
    ensures
        final(out)@ == old(out)@ + s@,
{
    let mut i: usize = 0;
    proof {
        assert(old(out)@ + s@.take(0) =~= old(out)@);
    }
    while i < s.len()
        invariant
            i <= s.len(),
            out@ == old(out)@ + s@.take(i as int),
        decreases s.len() - i,
    {
        proof {
            assert(s@.take(i as int + 1) =~= s@.take(i as int).push(s@[i as int]));
        }
        out.push(s[i]);
        i = i + 1;
    }
    proof {
        assert(s@.take(i as int) =~= s@);
    }
}

/// `path` as seen from `base`.
pub fn join(base: &[u8], path: &[u8]) -> (r: Vec<u8>)
    ensures
        r@ == joined(base@, path@),
{
    if path.len() > 0 && path[0] == 47 {
        return copy_name(path);
    }
    let mut out: Vec<u8> = copy_name(base);
    if base.len() > 0 && base[base.len() - 1] != 47 {
        out.push(47);
        proof {
            assert(out@ =~= base@ + seq![47u8]);
        }
    }
    append(&mut out, path);
    out
}

/// The absolute path with these names.
pub open spec fn path_of(names: Seq<Seq<u8>>) -> Seq<u8>
    decreases names.len(),
{
    if names.len() == 0 {
        seq![47u8]
    } else {
        joined(path_of(names.drop_last()), names.last())
    }
}

fn path_from(names: &Vec<Vec<u8>>, count: usize) -> (r: Vec<u8>)
    requires
        count <= names.len(),
    ensures
        r@ == path_of(unixwalk::parts(names@).take(count as int)),
{
    let ghost all = unixwalk::parts(names@);
    let mut out: Vec<u8> = Vec::new();
    out.push(47);
    let mut i: usize = 0;
    proof {
        assert(all.take(0) =~= Seq::<Seq<u8>>::empty());
        assert(out@ =~= seq![47u8]);
    }
    while i < count
        invariant
            i <= count <= names.len(),
            all == unixwalk::parts(names@),
            out@ == path_of(all.take(i as int)),
        decreases count - i,
    {
        proof {
            assert(all.take(i as int + 1).drop_last() =~= all.take(i as int));
            assert(all.take(i as int + 1).last() == names@[i as int]@);
        }
        out = join(out.as_slice(), names[i].as_slice());
        i = i + 1;
    }
    out
}

proof fn lemma_names_joined(a: Seq<u8>, b: Seq<u8>)
    ensures
        unixwalk::names(a + seq![47u8] + b) == unixwalk::names(a) + unixwalk::names(b),
    decreases a.len(),
{
    let whole = a + seq![47u8] + b;
    let n = unixwalk::slash_index(a);
    lemma_slash(a, b);
    if n < a.len() {
        let rest = a.skip(n + 1);
        lemma_names_joined(rest, b);
        assert(whole.take(n) =~= a.take(n));
        assert(whole.skip(n + 1) =~= rest + seq![47u8] + b);
        assert(unixwalk::names(whole) =~= unixwalk::names(a) + unixwalk::names(b));
    } else {
        assert(whole.take(n) =~= a);
        assert(whole.skip(n + 1) =~= b);
        assert(unixwalk::names(whole) =~= unixwalk::names(a) + unixwalk::names(b));
    }
}

proof fn lemma_slash(a: Seq<u8>, b: Seq<u8>)
    ensures
        0 <= unixwalk::slash_index(a) <= a.len(),
        unixwalk::slash_index(a + seq![47u8] + b) == unixwalk::slash_index(a),
    decreases a.len(),
{
    let whole = a + seq![47u8] + b;
    if a.len() == 0 {
        assert(whole[0] == 47);
    } else {
        assert(whole[0] == a[0]);
        if a[0] != 47 {
            assert(whole.drop_first() =~= a.drop_first() + seq![47u8] + b);
            lemma_slash(a.drop_first(), b);
        }
    }
}

proof fn lemma_no_slash(s: Seq<u8>)
    requires
        !s.contains(47),
    ensures
        unixwalk::slash_index(s) == s.len(),
    decreases s.len(),
{
    if s.len() > 0 {
        assert(s[0] != 47) by {
            assert(s.contains(s[0]));
        }
        let t = s.drop_first();
        if t.contains(47) {
            let k = choose|k: int| 0 <= k < t.len() && t[k] == 47;
            assert(s[k + 1] == 47);
            assert(s.contains(47));
        }
        lemma_no_slash(t);
    }
}

/// A plain name in a directory is that directory's names and the name.
pub proof fn law_entering_adds_one_name(dir: Seq<u8>, name: Seq<u8>)
    requires
        unixwalk::plain(name),
        unixwalk::absolute(dir),
    ensures
        unixwalk::names(joined(dir, name)) == unixwalk::names(dir).push(name),
        unixwalk::absolute(joined(dir, name)),
{
    assert(!unixwalk::absolute(name)) by {
        if name.len() > 0 && name[0] == 47 {
            assert(name.contains(47));
        }
    }
    lemma_no_slash(name);
    assert(unixwalk::names(name) =~= seq![name]);
    if dir.last() != 47 {
        lemma_names_joined(dir, name);
        assert(unixwalk::names(dir) + seq![name] =~= unixwalk::names(dir).push(name));
    } else {
        let a = dir.drop_last();
        assert(dir =~= a + seq![47u8] + Seq::<u8>::empty());
        assert(dir + name =~= a + seq![47u8] + name);
        lemma_names_joined(a, Seq::empty());
        lemma_names_joined(a, name);
        assert(unixwalk::names(Seq::<u8>::empty()) =~= Seq::<Seq<u8>>::empty());
        assert(unixwalk::names(dir) =~= unixwalk::names(a));
        assert(unixwalk::names(a) + seq![name] =~= unixwalk::names(dir).push(name));
    }
}

/// What is entered from a place within the root is within the root.
pub proof fn law_entering_stays_within(root: Seq<u8>, dir: Seq<u8>, name: Seq<u8>)
    requires
        unixwalk::plain(name),
        unixwalk::within(root, dir),
    ensures
        unixwalk::within(root, joined(dir, name)),
{
    law_entering_adds_one_name(dir, name);
    let k = unixwalk::names(root).len() as int;
    assert(unixwalk::names(dir).push(name).take(k) =~= unixwalk::names(dir).take(k));
}

// ---------------------------------------------------------------- resolving

/// What a [`Resolver`] waits for.
#[derive(Debug, Clone, Copy, PartialEq, Eq, Structural)]
pub enum ResolveStage {
    /// The canonical form of the whole path.
    Whole,
    /// Whether the path names a link.
    Link,
    /// The canonical form of the parent.
    Parent,
    /// Nothing.
    Finished,
}

/// What came of a [`ResolveStep`].
#[derive(Debug, Clone, PartialEq, Eq)]
pub enum ResolveEvent {
    /// The canonical form, where there is one.
    Canonical(Option<Vec<u8>>),
    /// Whether the path names a link.
    IsLink(bool),
}

/// What is to be done next.
#[derive(Debug, Clone, PartialEq, Eq)]
pub enum ResolveStep {
    /// Find the canonical form of this path.
    Canonicalize(Vec<u8>),
    /// Look whether this path names a link.
    CheckLink(Vec<u8>),
    /// Done: this is the place.
    Resolved(Vec<u8>),
    /// Done: the path is refused.
    Failed(Error),
}

/// A [`ResolveStep`] by its contents.
pub enum ResolveStepView {
    Canonicalize(Seq<u8>),
    CheckLink(Seq<u8>),
    Resolved(Seq<u8>),
    Failed(error::FaultView),
}

impl View for ResolveStep {
    type V = ResolveStepView;

    open spec fn view(&self) -> ResolveStepView {
        match self {
            ResolveStep::Canonicalize(p) => ResolveStepView::Canonicalize(p@),
            ResolveStep::CheckLink(p) => ResolveStepView::CheckLink(p@),
            ResolveStep::Resolved(p) => ResolveStepView::Resolved(p@),
            ResolveStep::Failed(e) => ResolveStepView::Failed(e@),
        }
    }
}

/// A [`Resolver`] by its contents.
pub struct ResolveView {
    pub root: Seq<u8>,
    /// The path, as seen from the root.
    pub path: Seq<u8>,
    /// The caller's path, quoted.
    pub quoted: Seq<char>,
    pub stage: ResolveStage,
}

/// A permission error about the caller's path.
pub open spec fn denied(what: Seq<char>, quoted: Seq<char>) -> error::FaultView {
    error::fault(ErrorKind::Permission, what + quoted)
}

/// The resolution is over, with this last step.
pub open spec fn resolve_end(w: ResolveView, step: ResolveStepView) -> (
    ResolveView,
    ResolveStepView,
) {
    (ResolveView { stage: ResolveStage::Finished, ..w }, step)
}

/// The place is `path` where it lies within the root.
pub open spec fn place(w: ResolveView, path: Seq<u8>) -> (ResolveView, ResolveStepView) {
    if unixwalk::within(w.root, path) {
        resolve_end(w, ResolveStepView::Resolved(path))
    } else {
        resolve_end(w, ResolveStepView::Failed(denied("path escapes workspace: "@, w.quoted)))
    }
}

/// The canonical form of the whole path is known, or there is none.
pub open spec fn after_whole(w: ResolveView, canonical: Option<Seq<u8>>) -> (
    ResolveView,
    ResolveStepView,
) {
    match canonical {
        Some(path) => place(w, path),
        None => (
            ResolveView { stage: ResolveStage::Link, ..w },
            ResolveStepView::CheckLink(w.path),
        ),
    }
}

/// It is known whether the path names a link.
pub open spec fn after_link(w: ResolveView, link: bool) -> (ResolveView, ResolveStepView) {
    let names = unixwalk::names(w.path);
    if link {
        resolve_end(w, ResolveStepView::Failed(denied("symlink escape rejected: "@, w.quoted)))
    } else if names.len() == 0 {
        resolve_end(
            w,
            ResolveStepView::Failed(error::fault(ErrorKind::Malformed, "path has no parent"@)),
        )
    } else {
        (
            ResolveView { stage: ResolveStage::Parent, ..w },
            ResolveStepView::Canonicalize(path_of(names.drop_last())),
        )
    }
}

/// The canonical form of the parent is known, or there is none.
pub open spec fn after_parent(w: ResolveView, canonical: Option<Seq<u8>>) -> (
    ResolveView,
    ResolveStepView,
) {
    match canonical {
        None => resolve_end(
            w,
            ResolveStepView::Failed(denied("parent resolution failed: "@, w.quoted)),
        ),
        Some(parent) => place(w, joined(parent, unixwalk::names(w.path).last())),
    }
}

/// The bytes of an optional path.
pub open spec fn opt_path(p: Option<Vec<u8>>) -> Option<Seq<u8>> {
    match p {
        Some(p) => Some(p@),
        None => None,
    }
}

/// The event answers what the resolution waits for.
pub open spec fn resolve_awaited(stage: ResolveStage, event: ResolveEvent) -> bool {
    match event {
        ResolveEvent::Canonical(_) => stage == ResolveStage::Whole || stage == ResolveStage::Parent,
        ResolveEvent::IsLink(_) => stage == ResolveStage::Link,
    }
}

/// The resolution after an event it waited for, and what is to be done next.
pub open spec fn resolve_next(w: ResolveView, event: ResolveEvent) -> (
    ResolveView,
    ResolveStepView,
) {
    match event {
        ResolveEvent::Canonical(p) => if w.stage == ResolveStage::Whole {
            after_whole(w, opt_path(p))
        } else {
            after_parent(w, opt_path(p))
        },
        ResolveEvent::IsLink(link) => after_link(w, link),
    }
}

/// What holds of every resolution: the parent is looked for only where the path
/// names something in it.
pub open spec fn resolve_sound(w: ResolveView) -> bool {
    w.stage == ResolveStage::Parent ==> unixwalk::names(w.path).len() > 0
}

/// Whatever the file system answers, a resolution ends only in a place within
/// the root.
pub proof fn law_resolved_within_the_root(w: ResolveView, event: ResolveEvent)
    requires
        resolve_sound(w),
        resolve_awaited(w.stage, event),
    ensures
        resolve_sound(resolve_next(w, event).0),
        resolve_next(w, event).1 matches ResolveStepView::Resolved(path) ==> unixwalk::within(
            w.root,
            path,
        ),
        resolve_next(w, event).0.root == w.root,
{
}

/// A resolution of a caller's path.
#[derive(Debug, Clone, PartialEq, Eq)]
pub struct Resolver {
    root: Vec<u8>,
    path: Vec<u8>,
    rel: PathText,
    stage: ResolveStage,
}

impl View for Resolver {
    type V = ResolveView;

    closed spec fn view(&self) -> ResolveView {
        ResolveView {
            root: self.root@,
            path: self.path@,
            quoted: self.rel.quoted@,
            stage: self.stage,
        }
    }
}

impl Resolver {
    /// Starts the resolution of `rel` under the canonical `root`, with what is
    /// to be done first. A path that goes up anywhere is refused.
    pub fn begin(root: &[u8], rel_bytes: &[u8], rel: PathText) -> (r: Result<
        (Resolver, ResolveStep),
        Error,
    >)
        ensures
            ({
                let path = joined(root@, rel_bytes@);
                if unixwalk::climbs(unixwalk::names(path)) {
                    r matches Err(e) && e@ == denied("path traversal rejected: "@, rel.quoted@)
                } else {
                    r matches Ok((w, step)) && w@ == (ResolveView {
                        root: root@,
                        path,
                        quoted: rel.quoted@,
                        stage: ResolveStage::Whole,
                    }) && resolve_sound(w@) && step@ == ResolveStepView::Canonicalize(path)
                }
            }),
    {
        let path: Vec<u8> = join(root, rel_bytes);
        let names: Vec<Vec<u8>> = split_path(path.as_slice());
        if goes_up(&names) {
            return Err(
                Error::permission(
                    text::cat2("path traversal rejected: ", rel.quoted.as_str()),
                ),
            );
        }
        let step: ResolveStep = ResolveStep::Canonicalize(copy_name(path.as_slice()));
        Ok((Resolver { root: copy_name(root), path, rel, stage: ResolveStage::Whole }, step))
    }

    /// What the resolution waits for.
    pub fn stage(&self) -> (r: ResolveStage)
        ensures
            r == self@.stage,
    {
        self.stage
    }

    fn deny(&mut self, what: &str) -> (r: ResolveStep)
        ensures
            (final(self)@, r@) == resolve_end(
                old(self)@,
                ResolveStepView::Failed(denied(what@, old(self)@.quoted)),
            ),
    {
        self.stage = ResolveStage::Finished;
        ResolveStep::Failed(Error::permission(text::cat2(what, self.rel.quoted.as_str())))
    }

    fn place(&mut self, path: Vec<u8>) -> (r: ResolveStep)
        ensures
            (final(self)@, r@) == place(old(self)@, path@),
    {
        if is_within(self.root.as_slice(), path.as_slice()) {
            self.stage = ResolveStage::Finished;
            ResolveStep::Resolved(path)
        } else {
            self.deny("path escapes workspace: ")
        }
    }

    /// Takes the event that the resolution waited for, and says what is to be
    /// done next.
    pub fn advance(&mut self, event: ResolveEvent) -> (r: ResolveStep)
        requires
            resolve_sound(old(self)@),
            resolve_awaited(old(self)@.stage, event),
        ensures
            (final(self)@, r@) == resolve_next(old(self)@, event),
            resolve_sound(final(self)@),
            r@ matches ResolveStepView::Resolved(path) ==> unixwalk::within(old(self)@.root, path),
    {
        match event {
            ResolveEvent::Canonical(found) => if self.stage == ResolveStage::Whole {
                match found {
                    Some(path) => self.place(path),
                    None => {
                        self.stage = ResolveStage::Link;
                        ResolveStep::CheckLink(copy_name(self.path.as_slice()))
                    },
                }
            } else {
                match found {
                    None => self.deny("parent resolution failed: "),
                    Some(parent) => {
                        let names: Vec<Vec<u8>> = split_path(self.path.as_slice());
                        proof {
                            assert(unixwalk::parts(names@).len() > 0);
                        }
                        let name: &[u8] = names[names.len() - 1].as_slice();
                        proof {
                            assert(unixwalk::parts(names@).last() == name@);
                        }
                        let path: Vec<u8> = join(parent.as_slice(), name);
                        self.place(path)
                    },
                }
            },
            ResolveEvent::IsLink(link) => {
                if link {
                    return self.deny("symlink escape rejected: ");
                }
                let names: Vec<Vec<u8>> = split_path(self.path.as_slice());
                if names.len() == 0 {
                    self.stage = ResolveStage::Finished;
                    return ResolveStep::Failed(Error::malformed("path has no parent".to_owned()));
                }
                self.stage = ResolveStage::Parent;
                proof {
                    assert(unixwalk::parts(names@).drop_last() =~= unixwalk::parts(names@).take(
                        names@.len() - 1,
                    ));
                }
                ResolveStep::Canonicalize(path_from(&names, names.len() - 1))
            },
        }
    }
}

// ------------------------------------------------------ making directories

/// What a [`Creator`] waits for.
#[derive(Debug, Clone, Copy, PartialEq, Eq, Structural)]
pub enum CreateStage {
    /// What stands at the current path.
    Look,
    /// The canonical form of what was found.
    Found,
    /// The directory is being made.
    Make,
    /// The canonical form of what was made.
    Made,
    /// Nothing.
    Finished,
}

/// What came of a [`CreateStep`]. `said` is what the system says of a failure;
/// texts of paths are those of the path in question.
#[derive(Debug, Clone, PartialEq, Eq)]
pub enum CreateEvent {
    /// Something is there.
    Present,
    /// Nothing is there.
    Missing,
    /// The look failed.
    LookFailed { path: PathText, said: String },
    /// The canonical form, and whether a directory stands there.
    Canonical { path: Vec<u8>, shown: PathText, directory: bool },
    /// There is no canonical form; the name in question, quoted.
    NotCanonical { name: String },
    /// The directory was made.
    Made,
    /// Something was there when the directory was made.
    Taken { path: PathText },
    /// The directory could not be made.
    MakeFailed { path: PathText, said: String },
}

/// What is to be done next.
#[derive(Debug, Clone, PartialEq, Eq)]
pub enum CreateStep {
    /// Look at this path, without following a link.
    Look(Vec<u8>),
    /// Find the canonical form of this path.
    Canonicalize(Vec<u8>),
    /// Make this directory.
    MakeDirectory(Vec<u8>),
    /// Done: this is the place.
    Resolved(Vec<u8>),
    /// Done: the path is refused.
    Failed(Error),
}

/// A [`CreateStep`] by its contents.
pub enum CreateStepView {
    Look(Seq<u8>),
    Canonicalize(Seq<u8>),
    MakeDirectory(Seq<u8>),
    Resolved(Seq<u8>),
    Failed(error::FaultView),
}

impl View for CreateStep {
    type V = CreateStepView;

    open spec fn view(&self) -> CreateStepView {
        match self {
            CreateStep::Look(p) => CreateStepView::Look(p@),
            CreateStep::Canonicalize(p) => CreateStepView::Canonicalize(p@),
            CreateStep::MakeDirectory(p) => CreateStepView::MakeDirectory(p@),
            CreateStep::Resolved(p) => CreateStepView::Resolved(p@),
            CreateStep::Failed(e) => CreateStepView::Failed(e@),
        }
    }
}

/// A [`Creator`] by its contents.
pub struct CreateView {
    pub root: Seq<u8>,
    /// The caller's path, quoted.
    pub quoted: Seq<char>,
    /// The names of the caller's path.
    pub names: Seq<Seq<u8>>,
    /// How many names have been entered, counting the current one.
    pub entered: nat,
    /// The current path.
    pub prefix: Seq<u8>,
    pub stage: CreateStage,
}

/// The creation is over, with this last step.
pub open spec fn create_end(w: CreateView, step: CreateStepView) -> (CreateView, CreateStepView) {
    (CreateView { stage: CreateStage::Finished, ..w }, step)
}

/// The next name is entered, or the place is reached.
pub open spec fn enter(w: CreateView) -> (CreateView, CreateStepView) {
    if w.entered >= w.names.len() {
        create_end(w, CreateStepView::Resolved(w.prefix))
    } else if w.names[w.entered as int] == unixwalk::dotdot() {
        create_end(w, CreateStepView::Failed(denied("path traversal rejected: "@, w.quoted)))
    } else {
        let prefix = joined(w.prefix, w.names[w.entered as int]);
        (
            CreateView { entered: w.entered + 1, prefix, stage: CreateStage::Look, ..w },
            CreateStepView::Look(prefix),
        )
    }
}

/// Nothing is at the current path.
pub open spec fn after_missing(w: CreateView) -> (CreateView, CreateStepView) {
    if w.entered == w.names.len() {
        create_end(w, CreateStepView::Resolved(w.prefix))
    } else {
        (CreateView { stage: CreateStage::Make, ..w }, CreateStepView::MakeDirectory(w.prefix))
    }
}

/// The canonical form of the current path is known.
pub open spec fn after_canonical(
    w: CreateView,
    path: Seq<u8>,
    shown: Seq<char>,
    directory: bool,
) -> (CreateView, CreateStepView) {
    if !unixwalk::within(w.root, path) {
        create_end(w, CreateStepView::Failed(denied("path escapes workspace: "@, w.quoted)))
    } else if w.stage == CreateStage::Found && !directory && w.entered < w.names.len() {
        create_end(
            w,
            CreateStepView::Failed(
                error::fault(
                    ErrorKind::Conflict,
                    shown + " exists and is not a directory; "@ + w.quoted
                        + " cannot be merged"@,
                ),
            ),
        )
    } else {
        enter(CreateView { prefix: path, ..w })
    }
}

/// The current path has no canonical form.
pub open spec fn after_no_canonical(w: CreateView, name: Seq<char>) -> (
    CreateView,
    CreateStepView,
) {
    let what = if w.stage == CreateStage::Made {
        "parent resolution failed after mkdir: "@
    } else {
        "parent resolution failed: "@
    };
    create_end(
        w,
        CreateStepView::Failed(
            error::fault(ErrorKind::Permission, what + w.quoted + " ("@ + name + ")"@),
        ),
    )
}

/// The event answers what the creation waits for.
pub open spec fn create_awaited(stage: CreateStage, event: CreateEvent) -> bool {
    match event {
        CreateEvent::Present | CreateEvent::Missing | CreateEvent::LookFailed { .. } => stage
            == CreateStage::Look,
        CreateEvent::Canonical { .. } | CreateEvent::NotCanonical { .. } => stage
            == CreateStage::Found || stage == CreateStage::Made,
        CreateEvent::Made | CreateEvent::Taken { .. } | CreateEvent::MakeFailed { .. } => stage
            == CreateStage::Make,
    }
}

/// The creation after an event it waited for, and what is to be done next.
pub open spec fn create_next(w: CreateView, event: CreateEvent) -> (CreateView, CreateStepView) {
    match event {
        CreateEvent::Present => (
            CreateView { stage: CreateStage::Found, ..w },
            CreateStepView::Canonicalize(w.prefix),
        ),
        CreateEvent::Missing => after_missing(w),
        CreateEvent::LookFailed { path, said } => create_end(
            w,
            CreateStepView::Failed(
                error::fault(ErrorKind::Internal, "metadata "@ + path.shown@ + ": "@ + said@),
            ),
        ),
        CreateEvent::Canonical { path, shown, directory } => after_canonical(
            w,
            path@,
            shown.quoted@,
            directory,
        ),
        CreateEvent::NotCanonical { name } => after_no_canonical(w, name@),
        CreateEvent::Made => (
            CreateView { stage: CreateStage::Made, ..w },
            CreateStepView::Canonicalize(w.prefix),
        ),
        CreateEvent::Taken { path } => create_end(
            w,
            CreateStepView::Failed(
                error::fault(
                    ErrorKind::Conflict,
                    path.quoted@ + " appeared while "@ + w.quoted + " was being staged"@,
                ),
            ),
        ),
        CreateEvent::MakeFailed { path, said } => create_end(
            w,
            CreateStepView::Failed(
                error::fault(ErrorKind::Internal, "mkdir "@ + path.shown@ + ": "@ + said@),
            ),
        ),
    }
}

/// What holds of every creation: the current path lies within the root, and the
/// names still to be entered are plain or go up.
pub open spec fn create_sound(w: CreateView) -> bool {
    &&& unixwalk::within(w.root, w.prefix)
    &&& unixwalk::plain_or_up(w.names)
    &&& w.entered <= w.names.len()
    &&& w.stage != CreateStage::Finished ==> w.entered >= 1
}

/// What the step looks at, makes or ends with lies within the root.
pub open spec fn step_within(root: Seq<u8>, step: CreateStepView) -> bool {
    match step {
        CreateStepView::Look(p) => unixwalk::within(root, p),
        CreateStepView::Canonicalize(p) => unixwalk::within(root, p),
        CreateStepView::MakeDirectory(p) => unixwalk::within(root, p),
        CreateStepView::Resolved(p) => unixwalk::within(root, p),
        CreateStepView::Failed(_) => true,
    }
}

proof fn lemma_enter(w: CreateView)
    requires
        unixwalk::within(w.root, w.prefix),
        unixwalk::plain_or_up(w.names),
        w.entered <= w.names.len(),
    ensures
        create_sound(enter(w).0),
        step_within(w.root, enter(w).1),
        enter(w).0.root == w.root,
{
    if w.entered < w.names.len() && w.names[w.entered as int] != unixwalk::dotdot() {
        law_entering_stays_within(w.root, w.prefix, w.names[w.entered as int]);
    }
}

/// Whatever the file system answers, only paths within the root are looked at
/// and made, and the creation ends within the root.
pub proof fn law_created_within_the_root(w: CreateView, event: CreateEvent)
    requires
        create_sound(w),
        create_awaited(w.stage, event),
    ensures
        create_sound(create_next(w, event).0),
        step_within(w.root, create_next(w, event).1),
        create_next(w, event).0.root == w.root,
{
    if let CreateEvent::Canonical { path, .. } = event {
        if unixwalk::within(w.root, path@) {
            lemma_enter(CreateView { prefix: path@, ..w });
        }
    }
}

/// The path begins with the component `.`.
pub open spec fn leads_with_dot(rel: Seq<u8>) -> bool {
    rel.len() > 0 && rel[0] == 46 && (rel.len() == 1 || rel[1] == 47)
}

/// The creation before its first step.
pub open spec fn create_start(root: Seq<u8>, rel: Seq<u8>, quoted: Seq<char>) -> CreateView {
    CreateView {
        root,
        quoted,
        names: unixwalk::names(rel),
        entered: 0,
        prefix: root,
        stage: CreateStage::Finished,
    }
}

/// The resolution of a caller's path, with the directories made that it needs.
#[derive(Debug, Clone, PartialEq, Eq)]
pub struct Creator {
    root: Vec<u8>,
    rel: PathText,
    names: Vec<Vec<u8>>,
    entered: usize,
    prefix: Vec<u8>,
    stage: CreateStage,
}

impl View for Creator {
    type V = CreateView;

    closed spec fn view(&self) -> CreateView {
        CreateView {
            root: self.root@,
            quoted: self.rel.quoted@,
            names: unixwalk::parts(self.names@),
            entered: self.entered as nat,
            prefix: self.prefix@,
            stage: self.stage,
        }
    }
}

impl Creator {
    /// Starts with `rel` under the canonical `root`; the second part says what
    /// is to be done first. The path must not be empty, and names only plain
    /// components.
    pub fn begin(root: &[u8], rel_bytes: &[u8], rel: PathText) -> (r: Result<
        (Creator, CreateStep),
        Error,
    >)
        requires
            unixwalk::absolute(root@),
        ensures
            if rel_bytes@.len() == 0 {
                r matches Err(e) && e@ == error::fault(
                    ErrorKind::Malformed,
                    rel.quoted@ + " is empty"@,
                )
            } else if unixwalk::absolute(rel_bytes@) || leads_with_dot(rel_bytes@) {
                r matches Err(e) && e@ == denied("path traversal rejected: "@, rel.quoted@)
            } else {
                r matches Ok((w, step)) && (w@, step@) == enter(
                    create_start(root@, rel_bytes@, rel.quoted@),
                ) && create_sound(w@) && step_within(root@, step@)
            },
    {
        if rel_bytes.len() == 0 {
            return Err(Error::malformed(text::cat2(rel.quoted.as_str(), " is empty")));
        }
        if rel_bytes[0] == 47 || (rel_bytes[0] == 46 && (rel_bytes.len() == 1 || rel_bytes[1]
            == 47)) {
            return Err(
                Error::permission(
                    text::cat2("path traversal rejected: ", rel.quoted.as_str()),
                ),
            );
        }
        let names: Vec<Vec<u8>> = split_path(rel_bytes);
        let mut w: Creator = Creator {
            root: copy_name(root),
            rel,
            names,
            entered: 0,
            prefix: copy_name(root),
            stage: CreateStage::Finished,
        };
        proof {
            unixwalk::lemma_names_plain(rel_bytes@);
            let list = unixwalk::names(root@);
            assert(list.take(list.len() as int) =~= list);
            lemma_enter(w@);
        }
        let step: CreateStep = w.enter();
        Ok((w, step))
    }

    /// What the creation waits for.
    pub fn stage(&self) -> (r: CreateStage)
        ensures
            r == self@.stage,
    {
        self.stage
    }

    fn fail(&mut self, e: Error) -> (r: CreateStep)
        ensures
            (final(self)@, r@) == create_end(old(self)@, CreateStepView::Failed(e@)),
    {
        self.stage = CreateStage::Finished;
        CreateStep::Failed(e)
    }

    fn enter(&mut self) -> (r: CreateStep)
        ensures
            (final(self)@, r@) == enter(old(self)@),
    {
        if self.entered >= self.names.len() {
            self.stage = CreateStage::Finished;
            return CreateStep::Resolved(copy_name(self.prefix.as_slice()));
        }
        let name: Vec<u8> = copy_name(self.names[self.entered].as_slice());
        proof {
            assert(name@ == self@.names[self@.entered as int]);
        }
        if is_parent(name.as_slice()) {
            let e: Error = Error::permission(
                text::cat2("path traversal rejected: ", self.rel.quoted.as_str()),
            );
            return self.fail(e);
        }
        self.prefix = join(self.prefix.as_slice(), name.as_slice());
        self.entered = self.entered + 1;
        self.stage = CreateStage::Look;
        CreateStep::Look(copy_name(self.prefix.as_slice()))
    }

    fn canonical(&mut self, path: Vec<u8>, shown: PathText, directory: bool) -> (r: CreateStep)
        ensures
            (final(self)@, r@) == after_canonical(old(self)@, path@, shown.quoted@, directory),
    {
        if !is_within(self.root.as_slice(), path.as_slice()) {
            let e: Error = Error::permission(
                text::cat2("path escapes workspace: ", self.rel.quoted.as_str()),
            );
            return self.fail(e);
        }
        if self.stage == CreateStage::Found && !directory && self.entered < self.names.len() {
            let e: Error = Error::conflict(
                text::cat4(
                    shown.quoted.as_str(),
                    " exists and is not a directory; ",
                    self.rel.quoted.as_str(),
                    " cannot be merged",
                ),
            );
            return self.fail(e);
        }
        self.prefix = path;
        self.enter()
    }

    fn not_canonical(&mut self, name: &str) -> (r: CreateStep)
        ensures
            (final(self)@, r@) == after_no_canonical(old(self)@, name@),
    {
        let what: &str = match self.stage {
            CreateStage::Made => "parent resolution failed after mkdir: ",
            _ => "parent resolution failed: ",
        };
        let e: Error = Error::permission(
            text::cat5(what, self.rel.quoted.as_str(), " (", name, ")"),
        );
        self.fail(e)
    }

    /// Takes the event that the creation waited for, and says what is to be
    /// done next.
    pub fn advance(&mut self, event: CreateEvent) -> (r: CreateStep)
        requires
            create_sound(old(self)@),
            create_awaited(old(self)@.stage, event),
        ensures
            (final(self)@, r@) == create_next(old(self)@, event),
            create_sound(final(self)@),
            step_within(old(self)@.root, r@),
    {
        proof {
            law_created_within_the_root(self@, event);
        }
        match event {
            CreateEvent::Present => {
                self.stage = CreateStage::Found;
                CreateStep::Canonicalize(copy_name(self.prefix.as_slice()))
            },
            CreateEvent::Missing => {
                if self.entered == self.names.len() {
                    self.stage = CreateStage::Finished;
                    return CreateStep::Resolved(copy_name(self.prefix.as_slice()));
                }
                self.stage = CreateStage::Make;
                CreateStep::MakeDirectory(copy_name(self.prefix.as_slice()))
            },
            CreateEvent::LookFailed { path, said } => self.fail(
                Error::internal(
                    text::cat4("metadata ", path.shown.as_str(), ": ", said.as_str()),
                ),
            ),
            CreateEvent::Canonical { path, shown, directory } => self.canonical(
                path,
                shown,
                directory,
            ),
            CreateEvent::NotCanonical { name } => self.not_canonical(name.as_str()),
            CreateEvent::Made => {
                self.stage = CreateStage::Made;
                CreateStep::Canonicalize(copy_name(self.prefix.as_slice()))
            },
            CreateEvent::Taken { path } => {
                let e: Error = Error::conflict(
                    text::cat4(
                        path.quoted.as_str(),
                        " appeared while ",
                        self.rel.quoted.as_str(),
                        " was being staged",
                    ),
                );
                self.fail(e)
            },
            CreateEvent::MakeFailed { path, said } => self.fail(
                Error::internal(text::cat4("mkdir ", path.shown.as_str(), ": ", said.as_str())),
            ),
        }
    }
}

/// A relative path stands behind its base, with one slash between them; an
/// absolute one stands for itself.
pub proof fn law_a_path_is_seen_from_its_base(base: Seq<u8>, path: Seq<u8>)
    ensures
        path.len() > 0 && path[0] == 47 ==> joined(base, path) == path,
        (path.len() == 0 || path[0] != 47) && base.len() > 0 && base.last() != 47 ==> joined(
            base,
            path,
        ) == base + seq![47u8] + path,
        (path.len() == 0 || path[0] != 47) && (base.len() == 0 || base.last() == 47) ==> joined(
            base,
            path,
        ) == base + path,
{
}

/// An absolute path is made up of its names.
pub proof fn law_a_path_is_its_names(names: Seq<Seq<u8>>)
    requires
        unixwalk::all_plain(names),
    ensures
        unixwalk::names(path_of(names)) == names,
        unixwalk::absolute(path_of(names)),
    decreases names.len(),
{
    if names.len() == 0 {
        unixwalk::law_names_stand_between_slashes(Seq::empty(), Seq::empty());
        assert(Seq::<u8>::empty() + seq![47u8] + Seq::<u8>::empty() =~= seq![47u8]);
        assert(names =~= Seq::empty());
    } else {
        let most = names.drop_last();
        assert forall|i: int| 0 <= i < most.len() implies unixwalk::plain(#[trigger] most[i]) by {
            assert(unixwalk::plain(names[i]));
        }
        law_a_path_is_its_names(most);
        assert(unixwalk::plain(names[names.len() - 1]));
        law_entering_adds_one_name(path_of(most), names.last());
        assert(most.push(names.last()) =~= names);
    }
}

/// A path that is there is resolved to its canonical form, where that lies within
/// the root, and else refused; a path that is not there is resolved in its parent,
/// unless it names a link.
pub proof fn law_how_a_path_is_resolved(w: ResolveView, p: Vec<u8>)
    ensures
        w.stage == ResolveStage::Whole ==> {
            let (v, step) = resolve_next(w, ResolveEvent::Canonical(Some(p)));
            &&& v.stage == ResolveStage::Finished
            &&& unixwalk::within(w.root, p@) ==> step == ResolveStepView::Resolved(p@)
            &&& !unixwalk::within(w.root, p@) ==> (step matches ResolveStepView::Failed(f) && f.kind
                == ErrorKind::Permission)
        },
        w.stage == ResolveStage::Whole ==> {
            let (v, step) = resolve_next(w, ResolveEvent::Canonical(None));
            v.stage == ResolveStage::Link && step == ResolveStepView::CheckLink(w.path) && v.path
                == w.path
        },
        w.stage == ResolveStage::Link ==> {
            let names = unixwalk::names(w.path);
            let (v, step) = resolve_next(w, ResolveEvent::IsLink(false));
            &&& names.len() > 0 ==> v.stage == ResolveStage::Parent && step
                == ResolveStepView::Canonicalize(path_of(names.drop_last()))
            &&& names.len() == 0 ==> (step matches ResolveStepView::Failed(f) && f.kind
                == ErrorKind::Malformed)
            &&& resolve_next(w, ResolveEvent::IsLink(true)).1 matches ResolveStepView::Failed(f)
                && f.kind == ErrorKind::Permission
        },
        w.stage == ResolveStage::Parent ==> {
            let place = joined(p@, unixwalk::names(w.path).last());
            let (v, step) = resolve_next(w, ResolveEvent::Canonical(Some(p)));
            &&& v.stage == ResolveStage::Finished
            &&& unixwalk::within(w.root, place) ==> step == ResolveStepView::Resolved(place)
            &&& !unixwalk::within(w.root, place) ==> (step matches ResolveStepView::Failed(f)
                && f.kind == ErrorKind::Permission)
            &&& resolve_next(w, ResolveEvent::Canonical(None)).1 matches ResolveStepView::Failed(f)
                && f.kind == ErrorKind::Permission
        },
{
}

/// A creation enters its names one by one: what is there is followed, what is
/// missing is made, and the last name need not be there.
pub proof fn law_how_a_place_is_created(w: CreateView, path: Vec<u8>, shown: PathText, directory: bool)
    requires
        w.entered <= w.names.len(),
    ensures
        ({
            let (v, step) = create_next(w, CreateEvent::Present);
            v.stage == CreateStage::Found && step == CreateStepView::Canonicalize(w.prefix)
                && v.prefix == w.prefix && v.entered == w.entered
        }),
        ({
            let (v, step) = create_next(w, CreateEvent::Missing);
            &&& w.entered == w.names.len() ==> step == CreateStepView::Resolved(w.prefix) && v.stage
                == CreateStage::Finished
            &&& w.entered < w.names.len() ==> step == CreateStepView::MakeDirectory(w.prefix)
                && v.stage == CreateStage::Make
        }),
        ({
            let (v, step) = create_next(w, CreateEvent::Made);
            v.stage == CreateStage::Made && step == CreateStepView::Canonicalize(w.prefix)
        }),
        ({
            let (v, step) = create_next(w, CreateEvent::Canonical { path, shown, directory });
            let last = w.entered == w.names.len();
            &&& !unixwalk::within(w.root, path@) ==> (step matches CreateStepView::Failed(f)
                && f.kind == ErrorKind::Permission)
            &&& unixwalk::within(w.root, path@) && last ==> step == CreateStepView::Resolved(path@)
            &&& unixwalk::within(w.root, path@) && !last && !directory && w.stage
                == CreateStage::Found ==> (step matches CreateStepView::Failed(f) && f.kind
                == ErrorKind::Conflict)
            &&& unixwalk::within(w.root, path@) && !last && (directory || w.stage
                == CreateStage::Made) && w.names[w.entered as int] != seq![46u8, 46u8] ==> {
                let next = joined(path@, w.names[w.entered as int]);
                step == CreateStepView::Look(next) && v.prefix == next && v.entered == w.entered + 1
                    && v.stage == CreateStage::Look
            }
            &&& unixwalk::within(w.root, path@) && !last && (directory || w.stage
                == CreateStage::Made) && w.names[w.entered as int] == seq![46u8, 46u8] ==> (
            step matches CreateStepView::Failed(f) && f.kind == ErrorKind::Permission)
        }),
{
}

/// Where a creation cannot go on it fails: as a conflict where something appeared
/// in its way, and else with what the system says.
pub proof fn law_where_a_creation_fails(w: CreateView, path: PathText, name: String, said: String)
    ensures
        (create_next(w, CreateEvent::Taken { path }).1 matches CreateStepView::Failed(f) && f.kind
            == ErrorKind::Conflict),
        (create_next(w, CreateEvent::MakeFailed { path, said }).1 matches CreateStepView::Failed(f)
            && f.kind == ErrorKind::Internal),
        (create_next(w, CreateEvent::LookFailed { path, said }).1 matches CreateStepView::Failed(f)
            && f.kind == ErrorKind::Internal),
        (create_next(w, CreateEvent::NotCanonical { name }).1 matches CreateStepView::Failed(f)
            && f.kind == ErrorKind::Permission),
        create_next(w, CreateEvent::Taken { path }).0.stage == CreateStage::Finished,
        create_next(w, CreateEvent::MakeFailed { path, said }).0.stage == CreateStage::Finished,
        create_next(w, CreateEvent::NotCanonical { name }).0.stage == CreateStage::Finished,
{
}

/// A creation begins at the root, with the names of the path.
pub proof fn law_a_creation_begins_at_the_root(root: Seq<u8>, rel: Seq<u8>, quoted: Seq<char>)
    ensures
        ({
            let w = create_start(root, rel, quoted);
            let names = unixwalk::names(rel);
            let (v, step) = enter(w);
            &&& names.len() == 0 ==> step == CreateStepView::Resolved(root)
            &&& names.len() > 0 && names[0] != seq![46u8, 46u8] ==> step == CreateStepView::Look(
                joined(root, names[0]),
            ) && v.entered == 1 && v.names == names && v.root == root
            &&& names.len() > 0 && names[0] == seq![46u8, 46u8] ==> step is Failed
        }),
        leads_with_dot(rel) <==> rel == seq![46u8] || (rel.len() >= 2 && rel[0] == 46 && rel[1] == 47),
{
    if rel.len() == 1 && rel[0] == 46 {
        assert(rel =~= seq![46u8]);
    }
}

} // verus!

//! Open workspaces, bounded reads and what they prove about a file.
use vstd::prelude::*;

use crate::digest::{FileHash, StreamHash};
use crate::digest;
use crate::error::{Error, ErrorKind, PathText};
use crate::error;
use crate::ids::{TaskId, WorkspaceId, WorktreeId};
use crate::text;
use crate::unixwalk::{copy_name, same_name};

verus! {

/// How a path in a workspace changed.
#[derive(Debug, Clone, Copy, PartialEq, Eq, Structural)]
pub enum FsEventKind {
    Created,
    Modified,
    Removed,
}

/// One change in a workspace. A path is the bytes that the system writes it
/// with.
#[derive(Debug, Clone, PartialEq, Eq)]
pub struct FsEvent {
    pub workspace_id: WorkspaceId,
    pub path: Vec<u8>,
    pub kind: FsEventKind,
}

/// What a watcher reports of a path.
#[derive(Debug, Clone, Copy, PartialEq, Eq, Structural)]
pub enum Change {
    Create,
    Modify,
    Remove,
    /// An access, or something the watcher does not tell.
    Other,
}

/// The event for a reported change; only a change of the file system is one.
pub fn event_of(workspace_id: WorkspaceId, path: Vec<u8>, change: Change) -> (r: Option<FsEvent>)
    ensures
        change == Change::Other <==> r is None,
        r matches Some(e) ==> e.workspace_id == workspace_id && e.path@ == path@ && e.kind == match change {
            Change::Create => FsEventKind::Created,
            Change::Modify => FsEventKind::Modified,
            _ => FsEventKind::Removed,
        },
{
    let kind: FsEventKind = match change {
        Change::Create => FsEventKind::Created,
        Change::Modify => FsEventKind::Modified,
        Change::Remove => FsEventKind::Removed,
        Change::Other => {
            return None;
        },
    };
    Some(FsEvent { workspace_id, path, kind })
}

/// What was read of a file.
#[derive(Debug, Clone, PartialEq, Eq)]
pub struct FileData {
    pub path: Vec<u8>,
    pub bytes: Vec<u8>,
    pub hash: FileHash,
    pub size: usize,
    /// The file holds more than `bytes`.
    pub truncated: bool,
}

/// A file as a directory lists it.
#[derive(Debug, Clone, PartialEq, Eq)]
pub struct FileMeta {
    pub path: Vec<u8>,
    pub size: u64,
    pub modified_ms: i64,
}

/// How much is read where no bound is given.
pub const DEFAULT_READ_MAX: usize = 4194304;

/// The piece in which content is hashed.
pub const STREAM_CHUNK: usize = 65536;

/// A digest that says what it covers.
#[derive(Debug, Clone, Copy, PartialEq, Eq)]
pub enum ContentDigest {
    /// The whole content of the file.
    Full(FileHash),
    /// The bytes from `offset` to `offset + len`; the file holds more.
    Slice { hash: FileHash, offset: u64, len: u64 },
}

/// A [`ContentDigest`] by its contents.
pub enum DigestView {
    Full(Seq<u8>),
    Slice { hash: Seq<u8>, offset: u64, len: u64 },
}

impl View for ContentDigest {
    type V = DigestView;

    open spec fn view(&self) -> DigestView {
        match self {
            ContentDigest::Full(h) => DigestView::Full(h@),
            ContentDigest::Slice { hash, offset, len } => DigestView::Slice {
                hash: hash@,
                offset: *offset,
                len: *len,
            },
        }
    }
}

impl ContentDigest {
    /// The digest, whatever it covers.
    pub fn hash(self) -> (r: FileHash)
        ensures
            r@ == match self@ {
                DigestView::Full(h) => h,
                DigestView::Slice { hash, .. } => hash,
            },
    {
        match self {
            ContentDigest::Full(h) => h,
            ContentDigest::Slice { hash, .. } => hash,
        }
    }

    /// Whether the digest covers the whole content.
    pub fn is_full(self) -> (r: bool)
        ensures
            r == (self@ is Full),
    {
        match self {
            ContentDigest::Full(_) => true,
            ContentDigest::Slice { .. } => false,
        }
    }
}

// ------------------------------------------------------------------- reading

/// How much of a file of `size` bytes a read bounded by `max_bytes` takes:
/// exactly that many bytes, or the whole file.
pub fn read_limit(size: u64, max_bytes: usize) -> (r: Option<usize>)
    ensures
        r == if size > max_bytes {
            Some(max_bytes)
        } else {
            None::<usize>
        },
{
    if size > max_bytes as u64 {
        Some(max_bytes)
    } else {
        None
    }
}

/// What the digest of a bounded read covers: the whole file only where the file
/// was within the bound.
pub open spec fn digest_of_read(bytes: Seq<u8>, size: u64, max_bytes: usize) -> DigestView {
    if size > max_bytes {
        DigestView::Slice { hash: digest::blake3_of(bytes), offset: 0, len: bytes.len() as u64 }
    } else {
        DigestView::Full(digest::blake3_of(bytes))
    }
}

/// The digest of what a read bounded by `max_bytes` took of a file of `size`
/// bytes.
pub fn read_digest(bytes: &[u8], size: u64, max_bytes: usize) -> (r: ContentDigest)
    ensures
        r@ == digest_of_read(bytes@, size, max_bytes),
{
    let hash: FileHash = FileHash::of(bytes);
    if size > max_bytes as u64 {
        ContentDigest::Slice { hash, offset: 0, len: bytes.len() as u64 }
    } else {
        ContentDigest::Full(hash)
    }
}

/// The outcome of a bounded read; it is truncated where its digest covers a
/// slice.
pub fn file_data(path: Vec<u8>, bytes: Vec<u8>, digest: ContentDigest) -> (r: FileData)
    ensures
        r.path@ == path@,
        r.bytes@ == bytes@,
        r.size == bytes@.len(),
        r.truncated == !(digest@ is Full),
        r.hash@ == match digest@ {
            DigestView::Full(h) => h,
            DigestView::Slice { hash, .. } => hash,
        },
{
    let size: usize = bytes.len();
    FileData { path, bytes, hash: digest.hash(), size, truncated: !digest.is_full() }
}

/// The outcome of a read of `len` bytes from `offset` on. It is truncated where
/// fewer bytes came than were asked for although the file, of `file_len` bytes,
/// goes on behind them.
pub fn slice_data(
    path: Vec<u8>,
    bytes: Vec<u8>,
    offset: u64,
    len: usize,
    file_len: Option<u64>,
) -> (r: FileData)
    requires
        offset + bytes@.len() <= usize::MAX,
        file_len matches Some(n) ==> n <= usize::MAX,
    ensures
        r.path@ == path@,
        r.bytes@ == bytes@,
        r.size == bytes@.len(),
        r.hash@ == digest::blake3_of(bytes@),
        r.truncated == (bytes@.len() < len && offset + bytes@.len() < match file_len {
            Some(n) => n as int,
            None => bytes@.len() as int,
        }),
{
    let hash: FileHash = FileHash::of(bytes.as_slice());
    let read: usize = bytes.len();
    let end: usize = match file_len {
        Some(n) => n as usize,
        None => read,
    };
    let truncated: bool = read < len && offset as usize + read < end;
    FileData { path, bytes, hash, size: read, truncated }
}

/// A file hashed piece by piece, up to a bound, without holding it.
pub struct StreamRead {
    hash: StreamHash,
    remaining: u64,
}

/// A [`StreamRead`] by its contents.
pub struct StreamView {
    /// The bytes hashed so far.
    pub taken: Seq<u8>,
    /// How many more may follow.
    pub remaining: nat,
}

impl View for StreamRead {
    type V = StreamView;

    closed spec fn view(&self) -> StreamView {
        StreamView { taken: self.hash@, remaining: self.remaining as nat }
    }
}

impl StreamRead {
    /// The count and the bound fit together.
    pub closed spec fn well_formed(&self) -> bool {
        self.hash.well_formed() && self.hash@.len() + self.remaining <= u64::MAX
    }

    /// A file of `len` bytes, of which at most `max_bytes` are hashed.
    pub fn new(len: u64, max_bytes: Option<u64>) -> (r: Self)
        ensures
            r.well_formed(),
            r@.taken == Seq::<u8>::empty(),
            r@.remaining == match max_bytes {
                Some(max) => if max <= len {
                    max as nat
                } else {
                    len as nat
                },
                None => len as nat,
            },
    {
        let remaining: u64 = match max_bytes {
            Some(max) => if max <= len {
                max
            } else {
                len
            },
            None => len,
        };
        StreamRead { hash: StreamHash::new(), remaining }
    }

    /// How many bytes to read next; 0 where nothing is left to be read.
    pub fn want(&self) -> (r: usize)
        ensures
            r == if self@.remaining <= STREAM_CHUNK {
                self@.remaining
            } else {
                STREAM_CHUNK as nat
            },
    {
        if self.remaining <= STREAM_CHUNK as u64 {
            self.remaining as usize
        } else {
            STREAM_CHUNK
        }
    }

    /// Hashes what was read.
    pub fn take(&mut self, piece: &[u8])
        requires
            old(self).well_formed(),
            piece@.len() <= old(self)@.remaining,
        ensures
            final(self).well_formed(),
            final(self)@.taken == old(self)@.taken + piece@,
            final(self)@.remaining == old(self)@.remaining - piece@.len(),
    {
        self.hash.push(piece);
        self.remaining = self.remaining - piece.len() as u64;
    }

    /// How many bytes were hashed, and their digest.
    pub fn finish(&self) -> (r: (u64, FileHash))
        requires
            self.well_formed(),
        ensures
            r.0 == self@.taken.len(),
            r.1@ == digest::blake3_of(self@.taken),
    {
        (self.hash.count(), self.hash.finish())
    }
}

/// A truncated read can never pass for the whole file: its digest differs from
/// every digest of a whole file, whatever bytes were read.
pub proof fn law_a_slice_is_never_the_file(
    bytes: Seq<u8>,
    size: u64,
    max_bytes: usize,
    whole: Seq<u8>,
)
    requires
        size > max_bytes,
    ensures
        digest_of_read(bytes, size, max_bytes) != DigestView::Full(digest::blake3_of(whole)),
{
}

// -------------------------------------------------------------------- errors

/// The error for a call on `rel` that failed.
pub open spec fn io_fault(rel: Seq<char>, missing: bool, said: Seq<char>) -> error::FaultView {
    if missing {
        error::fault(ErrorKind::NotFound, rel)
    } else {
        error::fault(ErrorKind::Internal, rel + ": "@ + said)
    }
}

/// The error for a call on `rel` that failed: not found where nothing is there.
pub fn io_error(rel: &PathText, missing: bool, said: &str) -> (r: Error)
    ensures
        r@ == io_fault(rel.shown@, missing, said@),
{
    if missing {
        Error::not_found(rel.shown.as_str().to_owned())
    } else {
        Error::new(ErrorKind::Internal, text::cat3(rel.shown.as_str(), ": ", said))
    }
}

/// What identifies an open file: the volume and the number of the file there.
#[derive(Debug, Clone, Copy, PartialEq, Eq, Structural)]
pub struct FileIdentity {
    pub volume: u64,
    pub number: u128,
}

/// Accepts an opened file only where it is still what the path names.
pub fn check_identity(
    rel: &PathText,
    opened: Option<FileIdentity>,
    at_path: Option<FileIdentity>,
) -> (r: Result<(), Error>)
    ensures
        r is Ok <==> (opened is Some && opened == at_path),
        r matches Err(e) ==> e@ == error::fault(
            ErrorKind::Permission,
            rel.quoted@ + " changed identity between resolution and open (TOCTOU)"@,
        ),
{
    if let (Some(a), Some(b)) = (opened, at_path) {
        if a == b {
            return Ok(());
        }
    }
    Err(
        Error::permission(
            text::cat2(
                rel.quoted.as_str(),
                " changed identity between resolution and open (TOCTOU)",
            ),
        ),
    )
}

// ---------------------------------------------------------------- workspaces

/// Which workspace, worktree and task a call belongs to.
#[derive(Debug, Clone, Copy, PartialEq, Eq, Structural)]
pub struct WorkspaceIdentity {
    pub workspace_id: WorkspaceId,
    pub worktree_id: WorktreeId,
    pub task_id: TaskId,
}

impl WorkspaceIdentity {
    pub fn new(workspace_id: WorkspaceId, worktree_id: WorktreeId, task_id: TaskId) -> (r: Self)
        ensures
            r.workspace_id == workspace_id,
            r.worktree_id == worktree_id,
            r.task_id == task_id,
    {
        WorkspaceIdentity { workspace_id, worktree_id, task_id }
    }
}

/// An open workspace: its id and its canonical root.
#[derive(Debug, Clone, PartialEq, Eq)]
pub struct WorkspaceHandle {
    workspace_id: WorkspaceId,
    root: Vec<u8>,
    shown: String,
}

/// A [`WorkspaceHandle`] by its contents.
pub struct HandleView {
    pub id: WorkspaceId,
    /// The root, as bytes and as messages show it.
    pub root: Seq<u8>,
    pub shown: Seq<char>,
}

impl View for WorkspaceHandle {
    type V = HandleView;

    closed spec fn view(&self) -> HandleView {
        HandleView { id: self.workspace_id, root: self.root@, shown: self.shown@ }
    }
}

impl WorkspaceHandle {
    pub fn workspace_id(&self) -> (r: WorkspaceId)
        ensures
            r == self@.id,
    {
        self.workspace_id
    }

    pub fn root(&self) -> (r: &[u8])
        ensures
            r@ == self@.root,
    {
        self.root.as_slice()
    }

    /// The same handle once more.
    pub fn duplicate(&self) -> (r: Self)
        ensures
            r@ == self@,
    {
        WorkspaceHandle {
            workspace_id: self.workspace_id,
            root: copy_name(self.root.as_slice()),
            shown: self.shown.as_str().to_owned(),
        }
    }

    /// Accepts a call only for this workspace.
    pub fn verify_identity(&self, identity: &WorkspaceIdentity) -> (r: Result<(), Error>)
        ensures
            r is Ok <==> identity.workspace_id == self@.id,
            r matches Err(e) ==> e@ == error::fault(
                ErrorKind::Permission,
                "workspace identity mismatch: handle "@ + text::decimal(self@.id.0 as nat)
                    + ", identity "@ + text::decimal(identity.workspace_id.0 as nat),
            ),
    {
        if identity.workspace_id == self.workspace_id {
            return Ok(());
        }
        Err(
            Error::permission(
                text::cat4(
                    "workspace identity mismatch: handle ",
                    text::decimal_text(self.workspace_id.0).as_str(),
                    ", identity ",
                    text::decimal_text(identity.workspace_id.0).as_str(),
                ),
            ),
        )
    }
}

/// The open workspaces, each under its id.
#[derive(Debug)]
pub struct WorkspaceFileService {
    open: Vec<WorkspaceHandle>,
}

/// The workspace with this id, if it is open.
pub open spec fn find_id(list: Seq<HandleView>, id: WorkspaceId) -> Option<HandleView>
    decreases list.len(),
{
    if list.len() == 0 {
        None
    } else if list.last().id == id {
        Some(list.last())
    } else {
        find_id(list.drop_last(), id)
    }
}

/// The handles in `list`.
pub open spec fn handles(list: Seq<WorkspaceHandle>) -> Seq<HandleView> {
    Seq::new(list.len(), |i: int| list[i]@)
}

/// No two handles have the same id.
pub open spec fn distinct_ids(list: Seq<HandleView>) -> bool {
    forall|i: int, j: int| 0 <= i < j < list.len() ==> (#[trigger] list[i]).id != (#[trigger] list[j]).id
}

/// What opening a workspace comes to: the one that is open, a new one, or an
/// error.
pub open spec fn open_outcome(
    list: Seq<HandleView>,
    id: WorkspaceId,
    root: Seq<u8>,
    shown: Seq<char>,
    is_dir: bool,
) -> Result<Option<HandleView>, error::FaultView> {
    match find_id(list, id) {
        Some(h) => if h.root == root {
            Ok(Some(h))
        } else {
            Err(
                error::fault(
                    ErrorKind::Conflict,
                    "workspace "@ + text::decimal(id.0 as nat) + " already open at "@ + h.shown,
                ),
            )
        },
        None => if is_dir {
            Ok(None)
        } else {
            Err(
                error::fault(
                    ErrorKind::NotFound,
                    "workspace root "@ + shown + " is not a directory"@,
                ),
            )
        },
    }
}

proof fn lemma_find_id(list: Seq<HandleView>, id: WorkspaceId, k: int)
    requires
        distinct_ids(list),
        0 <= k < list.len(),
        list[k].id == id,
    ensures
        find_id(list, id) == Some(list[k]),
    decreases list.len(),
{
    if k < list.len() - 1 {
        assert(list[k].id != list[list.len() - 1].id);
        assert(distinct_ids(list.drop_last()));
        lemma_find_id(list.drop_last(), id, k);
    }
}

proof fn lemma_find_none(list: Seq<HandleView>, id: WorkspaceId)
    requires
        forall|i: int| 0 <= i < list.len() ==> (#[trigger] list[i]).id != id,
    ensures
        find_id(list, id) is None,
    decreases list.len(),
{
    if list.len() > 0 {
        assert(list[list.len() - 1].id != id);
        assert forall|i: int| 0 <= i < list.drop_last().len() implies (
        #[trigger] list.drop_last()[i]).id != id by {
            assert(list.drop_last()[i] == list[i]);
        }
        lemma_find_none(list.drop_last(), id);
    }
}

impl View for WorkspaceFileService {
    type V = Seq<HandleView>;

    closed spec fn view(&self) -> Seq<HandleView> {
        handles(self.open@)
    }
}

impl WorkspaceFileService {
    /// Each id is open at most once.
    pub open spec fn well_formed(&self) -> bool {
        distinct_ids(self@)
    }

    /// Nothing open.
    pub fn new() -> (r: Self)
        ensures
            r.well_formed(),
            r@ == Seq::<HandleView>::empty(),
    {
        let s: WorkspaceFileService = WorkspaceFileService { open: Vec::new() };
        proof {
            assert(s@ =~= Seq::<HandleView>::empty());
        }
        s
    }

    /// Where the handle with this id stands.
    fn index_of(&self, id: WorkspaceId) -> (r: Option<usize>)
        requires
            self.well_formed(),
        ensures
            match r {
                Some(i) => i < self@.len() && self@[i as int].id == id && find_id(self@, id) == Some(
                    self@[i as int],
                ),
                None => find_id(self@, id) is None && forall|j: int|
                    0 <= j < self@.len() ==> (#[trigger] self@[j]).id != id,
            },
    {
        let mut i: usize = 0;
        while i < self.open.len()
            invariant
                i <= self.open.len(),
                self.well_formed(),
                forall|j: int| 0 <= j < i ==> (#[trigger] self@[j]).id != id,
            decreases self.open.len() - i,
        {
            proof {
                assert(self@[i as int] == self.open@[i as int]@);
            }
            if self.open[i].workspace_id == id {
                proof {
                    lemma_find_id(self@, id, i as int);
                }
                return Some(i);
            }
            i = i + 1;
        }
        proof {
            lemma_find_none(self@, id);
        }
        None
    }

    /// What opening the workspace would come to: the handle that is open
    /// already, or nothing where a new one is to be made.
    pub fn find(&self, id: WorkspaceId, root: &[u8], shown: &str, is_dir: bool) -> (r: Result<
        Option<WorkspaceHandle>,
        Error,
    >)
        requires
            self.well_formed(),
        ensures
            match open_outcome(self@, id, root@, shown@, is_dir) {
                Ok(Some(h)) => r matches Ok(Some(v)) && v@ == h,
                Ok(None) => r matches Ok(None),
                Err(f) => r matches Err(e) && e@ == f,
            },
    {
        match self.index_of(id) {
            Some(i) => {
                proof {
                    assert(self@[i as int] == self.open@[i as int]@);
                }
                if same_name(self.open[i].root.as_slice(), root) {
                    return Ok(Some(self.open[i].duplicate()));
                }
                Err(
                    Error::conflict(
                        text::cat4(
                            "workspace ",
                            text::decimal_text(id.0).as_str(),
                            " already open at ",
                            self.open[i].shown.as_str(),
                        ),
                    ),
                )
            },
            None => if is_dir {
                Ok(None)
            } else {
                Err(
                    Error::not_found(
                        text::cat3("workspace root ", shown, " is not a directory"),
                    ),
                )
            },
        }
    }

    /// Opens a workspace at its canonical root. The same id with the same root
    /// gives the handle that is open already, with another root a conflict.
    pub fn open(&mut self, id: WorkspaceId, root: &[u8], shown: &str, is_dir: bool) -> (r: Result<
        WorkspaceHandle,
        Error,
    >)
        requires
            old(self).well_formed(),
        ensures
            final(self).well_formed(),
            match open_outcome(old(self)@, id, root@, shown@, is_dir) {
                Ok(Some(h)) => r matches Ok(v) && v@ == h && final(self)@ == old(self)@,
                Ok(None) => {
                    let h = HandleView { id, root: root@, shown: shown@ };
                    r matches Ok(v) && v@ == h && final(self)@ == old(self)@.push(h)
                },
                Err(f) => r matches Err(e) && e@ == f && final(self)@ == old(self)@,
            },
    {
        match self.find(id, root, shown, is_dir) {
            Err(e) => Err(e),
            Ok(Some(h)) => Ok(h),
            Ok(None) => {
                let ghost before = self@;
                let handle: WorkspaceHandle = WorkspaceHandle {
                    workspace_id: id,
                    root: copy_name(root),
                    shown: shown.to_owned(),
                };
                let found: Option<usize> = self.index_of(id);
                self.open.push(handle.duplicate());
                proof {
                    assert(found is None);
                    assert(self@ =~= before.push(handle@));
                    assert forall|i: int, j: int| 0 <= i < j < self@.len() implies (
                    #[trigger] self@[i]).id != (#[trigger] self@[j]).id by {
                        if j == before.len() {
                            assert(before[i].id != id);
                        } else {
                            assert(before[i].id != before[j].id);
                        }
                    }
                }
                Ok(handle)
            },
        }
    }

    /// Closes a workspace; the others stay open.
    pub fn close(&mut self, id: WorkspaceId)
        requires
            old(self).well_formed(),
        ensures
            final(self).well_formed(),
            find_id(final(self)@, id) is None,
            forall|other: WorkspaceId|
                other != id ==> find_id(final(self)@, other) == find_id(old(self)@, other),
            find_id(old(self)@, id) is None ==> final(self)@ == old(self)@,
            find_id(old(self)@, id) is Some ==> final(self)@.len() == old(self)@.len() - 1,
    {
        match self.index_of(id) {
            None => {},
            Some(i) => {
                let ghost before = self@;
                let _gone: WorkspaceHandle = self.open.remove(i);
                proof {
                    assert(self@ =~= before.remove(i as int));
                    lemma_remove(before, i as int, id);
                }
            },
        }
    }

    /// How many workspaces are open.
    pub fn open_count(&self) -> (r: usize)
        ensures
            r == self@.len(),
    {
        self.open.len()
    }
}

proof fn lemma_remove(list: Seq<HandleView>, k: int, id: WorkspaceId)
    requires
        distinct_ids(list),
        0 <= k < list.len(),
        list[k].id == id,
    ensures
        distinct_ids(list.remove(k)),
        find_id(list.remove(k), id) is None,
        forall|other: WorkspaceId|
            other != id ==> find_id(list.remove(k), other) == find_id(list, other),
{
    let rest = list.remove(k);
    assert forall|i: int, j: int| 0 <= i < j < rest.len() implies (#[trigger] rest[i]).id != (
    #[trigger] rest[j]).id by {
        let a = if i < k { i } else { i + 1 };
        let b = if j < k { j } else { j + 1 };
        assert(rest[i] == list[a] && rest[j] == list[b]);
        assert(list[a].id != list[b].id);
    }
    assert forall|i: int| 0 <= i < rest.len() implies (#[trigger] rest[i]).id != id by {
        let a = if i < k { i } else { i + 1 };
        assert(rest[i] == list[a]);
        if a < k {
            assert(list[a].id != list[k].id);
        } else {
            assert(list[k].id != list[a].id);
        }
    }
    lemma_find_none(rest, id);
    assert forall|other: WorkspaceId| other != id implies find_id(rest, other) == find_id(
        list,
        other,
    ) by {
        if exists|i: int| 0 <= i < list.len() && (#[trigger] list[i]).id == other {
            let i = choose|i: int| 0 <= i < list.len() && (#[trigger] list[i]).id == other;
            lemma_find_id(list, other, i);
            let a = if i < k { i } else { i - 1 };
            assert(rest[a] == list[i]);
            lemma_find_id(rest, other, a);
        } else {
            lemma_find_none(list, other);
            assert forall|i: int| 0 <= i < rest.len() implies (#[trigger] rest[i]).id != other by {
                let a = if i < k { i } else { i + 1 };
                assert(rest[i] == list[a]);
            }
            lemma_find_none(rest, other);
        }
    }
}

/// The digest of a read is that of the whole file exactly where the file was
/// within the bound; beyond it, that of its beginning.
pub proof fn law_a_read_within_the_bound_is_whole(bytes: Seq<u8>, size: u64, max_bytes: usize)
    ensures
        size <= max_bytes ==> digest_of_read(bytes, size, max_bytes) == DigestView::Full(
            digest::blake3_of(bytes),
        ),
        size > max_bytes ==> (digest_of_read(bytes, size, max_bytes) matches DigestView::Slice {
            hash,
            offset,
            len,
        } && hash == digest::blake3_of(bytes) && offset == 0 && len == bytes.len() as u64),
{
}

/// A workspace that is open under an id is found by that id, and no other is.
pub proof fn law_an_open_workspace_is_found(list: Seq<HandleView>, id: WorkspaceId, k: int)
    requires
        distinct_ids(list),
    ensures
        0 <= k < list.len() && list[k].id == id ==> find_id(list, id) == Some(list[k]),
        (forall|i: int| 0 <= i < list.len() ==> (#[trigger] list[i]).id != id) ==> find_id(list, id)
            is None,
{
    if 0 <= k < list.len() && list[k].id == id {
        lemma_find_id(list, id, k);
    }
    if forall|i: int| 0 <= i < list.len() ==> (#[trigger] list[i]).id != id {
        lemma_find_none(list, id);
    }
}

/// An id is open at one root: opening it there again gives what is open, opening
/// it elsewhere is a conflict, and a new id needs a directory.
pub proof fn law_an_id_is_open_at_one_root(
    list: Seq<HandleView>,
    id: WorkspaceId,
    root: Seq<u8>,
    shown: Seq<char>,
    is_dir: bool,
    k: int,
)
    requires
        distinct_ids(list),
    ensures
        ({
            let r = open_outcome(list, id, root, shown, is_dir);
            &&& 0 <= k < list.len() && list[k].id == id && list[k].root == root ==> r == Ok::<
                Option<HandleView>,
                error::FaultView,
            >(Some(list[k]))
            &&& 0 <= k < list.len() && list[k].id == id && list[k].root != root ==> (r matches Err(
                f,
            ) && f.kind == ErrorKind::Conflict)
            &&& (forall|i: int| 0 <= i < list.len() ==> (#[trigger] list[i]).id != id) && is_dir
                ==> r == Ok::<Option<HandleView>, error::FaultView>(None)
            &&& (forall|i: int| 0 <= i < list.len() ==> (#[trigger] list[i]).id != id) && !is_dir
                ==> (r matches Err(f) && f.kind == ErrorKind::NotFound)
        }),
{
    law_an_open_workspace_is_found(list, id, k);
}

/// A call that failed is told as not found where nothing is there, and else with
/// what the system says.
pub proof fn law_what_is_missing_is_not_found(rel: Seq<char>, said: Seq<char>)
    ensures
        io_fault(rel, true, said) == error::fault(ErrorKind::NotFound, rel),
        io_fault(rel, false, said) == error::fault(ErrorKind::Internal, rel + ": "@ + said),
{
}

} // verus!

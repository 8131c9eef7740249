//! Workspaces over a file tree kept in memory: resolving, reading, replacing,
//! merging, listing and copying.
use std::collections::BTreeMap;

use faktor::atomic::{
    check_state, create_error, staged_expectation, temp_name, FileState, ReplaceEvent, ReplaceStep,
    Replacement, Seen,
};
use faktor::digest::FileHash;
use faktor::error::{Error, ErrorKind, PathText};
use faktor::ids::{TaskId, WorkspaceId, WorktreeId};
use faktor::merge::{
    check_delete, recheck_error, remove_error, CasMergeResult, Merge, MergeEvent, MergeStep,
    MAX_MERGE_FILE_BYTES,
};
use faktor::order::path_in_order;
use faktor::resolve::{
    join, CreateEvent, CreateStep, Creator, ResolveEvent, ResolveStep, Resolver,
};
use faktor::tree::{
    bounded_listing, check_copied, check_copy_caps, check_copy_roots, check_depth,
    check_snapshot_cap, check_snapshot_root, settle, sorted_entries, CopyBudget, EntryBudget,
    EntryEvent, EntryLook, EntryStep, EntryWalk, FileOpen, Setback, Settled, SnapshotEntry,
    MAX_TREE_WALK_DEPTH, WALK_ENTRY_ATTEMPTS,
};
use faktor::treewalk::{ListFault, ListedEntry, TreeEvent, TreeStage, TreeStep, TreeWalk};
use faktor::unixwalk::{
    is_within, lexical_components, root_error, Event, OpenFault, RootFault, Step, UnixWalk,
    MAX_COMPONENTS, MAX_SYMLINK_HOPS,
};
use faktor::workspace::{
    check_identity, event_of, file_data, io_error, read_digest, read_limit, slice_data, Change,
    ContentDigest, FileData, FileIdentity, FileMeta, FsEventKind, StreamRead, WorkspaceFileService,
    WorkspaceIdentity,
};

#[derive(Clone, PartialEq)]
enum Node {
    Dir,
    File(Vec<u8>),
    Link(String),
    Fifo,
}

/// Entries by absolute path, each with the time it was written at.
#[derive(Default)]
struct Files {
    nodes: BTreeMap<String, (Node, i64)>,
    clock: i64,
}

fn text(path: &[u8]) -> String {
    String::from_utf8(path.to_vec()).unwrap()
}

fn shown(path: &str) -> PathText {
    PathText::of(path)
}

impl Files {
    fn put(&mut self, path: &str, node: Node) {
        self.clock += 1;
        self.nodes.insert(path.to_string(), (node, self.clock));
    }

    fn dir(&mut self, path: &str) {
        let mut at = String::new();
        for name in path.split('/').filter(|n| !n.is_empty()) {
            at = format!("{at}/{name}");
            if !self.nodes.contains_key(&at) {
                self.put(&at.clone(), Node::Dir);
            }
        }
    }

    fn write(&mut self, path: &str, bytes: &[u8]) {
        self.put(path, Node::File(bytes.to_vec()));
    }

    fn link(&mut self, path: &str, target: &str) {
        self.put(path, Node::Link(target.to_string()));
    }

    fn remove(&mut self, path: &str) {
        self.nodes.remove(path);
    }

    fn node(&self, path: &str) -> Option<&Node> {
        self.nodes.get(path.trim_end_matches('/')).map(|n| &n.0)
    }

    fn read(&self, path: &str) -> Vec<u8> {
        match self.node(path) {
            Some(Node::File(b)) => b.clone(),
            _ => panic!("{path} is no file"),
        }
    }

    /// The path without links; `None` where something on it is missing.
    fn canonical(&self, path: &str) -> Option<String> {
        let mut names: Vec<String> =
            path.split('/').filter(|n| !n.is_empty()).rev().map(str::to_string).collect();
        let mut at = String::new();
        let mut hops = 0;
        while let Some(name) = names.pop() {
            if name == "." {
                continue;
            }
            if name == ".." {
                at.truncate(at.rfind('/').unwrap_or(0));
                continue;
            }
            let next = format!("{at}/{name}");
            match self.node(&next)? {
                Node::Link(target) => {
                    hops += 1;
                    if hops > 40 {
                        return None;
                    }
                    if target.starts_with('/') {
                        at.clear();
                    }
                    names.extend(
                        target.split('/').filter(|n| !n.is_empty()).rev().map(str::to_string),
                    );
                }
                _ => at = next,
            }
        }
        Some(at)
    }

    fn identity(&self, path: &str) -> Option<FileIdentity> {
        self.nodes.get(path).map(|n| FileIdentity { volume: 1, number: n.1 as u128 })
    }

    fn resolve(&self, root: &str, rel: &str) -> Result<String, Error> {
        let (mut r, mut step) = Resolver::begin(root.as_bytes(), rel.as_bytes(), shown(rel))?;
        loop {
            let event = match step {
                ResolveStep::Canonicalize(p) => {
                    ResolveEvent::Canonical(self.canonical(&text(&p)).map(String::into_bytes))
                }
                ResolveStep::CheckLink(p) => {
                    ResolveEvent::IsLink(matches!(self.node(&text(&p)), Some(Node::Link(_))))
                }
                ResolveStep::Resolved(p) => return Ok(text(&p)),
                ResolveStep::Failed(e) => return Err(e),
            };
            step = r.advance(event);
        }
    }

    fn resolve_or_create(&mut self, root: &str, rel: &str) -> Result<String, Error> {
        let (mut r, mut step) = Creator::begin(root.as_bytes(), rel.as_bytes(), shown(rel))?;
        loop {
            let event = match step {
                CreateStep::Look(p) => match self.node(&text(&p)) {
                    None => CreateEvent::Missing,
                    Some(_) => CreateEvent::Present,
                },
                CreateStep::Canonicalize(p) => match self.canonical(&text(&p)) {
                    Some(path) => {
                        let directory = self.node(&path) == Some(&Node::Dir);
                        CreateEvent::Canonical {
                            shown: shown(&path),
                            path: path.into_bytes(),
                            directory,
                        }
                    }
                    None => CreateEvent::NotCanonical { name: format!("{:?}", text(&p)) },
                },
                CreateStep::MakeDirectory(p) => {
                    self.dir(&text(&p));
                    CreateEvent::Made
                }
                CreateStep::Resolved(p) => return Ok(text(&p)),
                CreateStep::Failed(e) => return Err(e),
            };
            step = r.advance(event);
        }
    }

    /// Opens component by component; gives the path of what was opened.
    fn open_walk(&self, root: &str, rel: &str) -> Result<String, Error> {
        let mut walk = UnixWalk::begin(root.as_bytes(), rel.as_bytes(), shown(rel))?;
        let mut step = Step::OpenRoot;
        let mut dir = String::new();
        let mut entry = String::new();
        loop {
            let event = match step {
                Step::OpenRoot => {
                    dir = root.to_string();
                    Event::RootOpened
                }
                Step::Open { name, last, descend } => {
                    if descend {
                        dir = entry;
                    }
                    entry = format!("{dir}/{}", text(&name));
                    let fault = match self.node(&entry) {
                        None => Some(OpenFault::Missing),
                        Some(Node::Link(_)) => Some(OpenFault::Link),
                        Some(Node::Dir) => None,
                        Some(_) if last => None,
                        Some(_) => Some(OpenFault::NotDirectory),
                    };
                    match fault {
                        None => Event::Opened,
                        Some(fault) => Event::OpenFailed { fault, text: "os error".to_string() },
                    }
                }
                Step::Inspect => {
                    Event::Inspected { symlink: matches!(self.node(&entry), Some(Node::Link(_))) }
                }
                Step::ReadLink => match self.node(&entry) {
                    Some(Node::Link(t)) => Event::LinkRead {
                        target: t.clone().into_bytes(),
                        quoted: format!("{t:?}"),
                    },
                    _ => Event::LinkFailed { text: "no link".to_string() },
                },
                Step::Entry => return Ok(entry),
                Step::Directory => return Ok(dir),
                Step::Failed(e) => return Err(e),
            };
            step = walk.advance(event);
        }
    }

    fn seen(&self, path: &str) -> Seen {
        match self.nodes.get(path) {
            None => Seen::Missing,
            Some((Node::File(b), at)) => {
                Seen::File { len: b.len() as u64, modified_ms: Some(*at) }
            }
            Some(_) => Seen::Other,
        }
    }

    fn state(&self, path: &str) -> Result<FileState, Error> {
        FileState::from_seen(path, self.seen(path))
    }

    fn state_with_digest(&self, path: &str) -> Result<FileState, Error> {
        let state = self.state(path)?;
        match self.node(path) {
            Some(Node::File(b)) => Ok(state.with_digest(FileHash::of(b))),
            _ => Ok(state),
        }
    }

    fn replace_cas(&mut self, path: &str, expected: FileState, bytes: &[u8]) -> Result<FileHash, Error> {
        let mut r = Replacement::begin(path, expected, bytes);
        let tmp = format!("{path}.tmp");
        let mut step = ReplaceStep::Look;
        loop {
            let event = match step {
                ReplaceStep::Look => ReplaceEvent::Looked(self.seen(path)),
                ReplaceStep::Stage => {
                    self.write(&tmp, bytes);
                    ReplaceEvent::Staged { tmp: tmp.clone() }
                }
                ReplaceStep::Recheck => match self.state_with_digest(path) {
                    Ok(s) => ReplaceEvent::Rechecked(s),
                    Err(e) => ReplaceEvent::RecheckFailed(e),
                },
                ReplaceStep::Rename => {
                    self.remove(&tmp);
                    self.write(path, bytes);
                    ReplaceEvent::Renamed
                }
                ReplaceStep::Done(h) => return Ok(h),
                ReplaceStep::Failed { error, discard } => {
                    if discard {
                        self.remove(&tmp);
                    }
                    return Err(error);
                }
            };
            step = r.advance(event);
        }
    }

    fn create(&mut self, path: &str, bytes: &[u8]) -> Result<FileHash, Error> {
        if self.node(path).is_some() {
            return Err(create_error(true, "tmp", path, "File exists"));
        }
        self.write(path, bytes);
        Ok(FileHash::of(bytes))
    }

    fn merge(
        &mut self,
        dst_root: &str,
        dst_rel: &str,
        src_root: &str,
        src_rel: &str,
        expected_src: FileHash,
        expected_dst: Option<FileHash>,
    ) -> Result<CasMergeResult, Error> {
        let mut m = Merge::begin(dst_root, src_root, shown(src_rel), expected_src, expected_dst);
        let (mut dst, mut src) = (String::new(), String::new());
        let mut step = MergeStep::FindDstRoot;
        loop {
            let event = match step {
                MergeStep::FindDstRoot | MergeStep::FindSrcRoot => {
                    let root = if step == MergeStep::FindDstRoot { dst_root } else { src_root };
                    match self.canonical(root) {
                        Some(_) => MergeEvent::RootFound,
                        None => MergeEvent::RootMissing { said: "missing".to_string() },
                    }
                }
                MergeStep::PlaceDst { create } => {
                    let placed = if create {
                        self.resolve_or_create(dst_root, dst_rel)
                    } else {
                        self.resolve(dst_root, dst_rel)
                    };
                    match placed {
                        Ok(p) => {
                            dst = p;
                            MergeEvent::Placed(shown(&dst))
                        }
                        Err(e) => MergeEvent::PlaceFailed(e),
                    }
                }
                MergeStep::PlaceSrc => match self.resolve(src_root, src_rel) {
                    Ok(p) => {
                        src = p;
                        MergeEvent::Placed(shown(&src))
                    }
                    Err(e) => MergeEvent::PlaceFailed(e),
                },
                MergeStep::Look => match self.state_with_digest(&dst) {
                    Ok(s) => MergeEvent::Looked(s),
                    Err(e) => MergeEvent::LookFailed(e),
                },
                MergeStep::Size => match self.node(&src) {
                    Some(Node::File(b)) => MergeEvent::Sized(b.len() as u64),
                    _ => MergeEvent::SourceFailed { missing: true, said: "missing".to_string() },
                },
                MergeStep::Open => MergeEvent::Opened {
                    opened: self.identity(&src),
                    at_path: self.identity(&src),
                },
                MergeStep::Read => MergeEvent::Read(self.read(&src)),
                MergeStep::Replace { expected, bytes } => {
                    match self.replace_cas(&dst, expected, &bytes) {
                        Ok(_) => MergeEvent::Written,
                        Err(e) => MergeEvent::WriteFailed(e),
                    }
                }
                MergeStep::Create { bytes } => match self.create(&dst, &bytes) {
                    Ok(_) => MergeEvent::Written,
                    Err(e) => MergeEvent::WriteFailed(e),
                },
                MergeStep::Done(c) => return Ok(c),
                MergeStep::Failed(e) => return Err(e),
            };
            step = m.advance(event);
        }
    }

    fn merge_delete(
        &mut self,
        root: &str,
        rel: &str,
        expected: FileHash,
    ) -> Result<CasMergeResult, Error> {
        let dst = self.resolve(root, rel)?;
        let state = self
            .state_with_digest(&dst)
            .map_err(|e| recheck_error("delete recheck ", &shown(&dst), e))?;
        if !check_delete(&shown(&dst), &expected, &state)? {
            return Ok(CasMergeResult::AlreadyCurrent);
        }
        self.remove(&dst);
        Ok(CasMergeResult::Applied)
    }

    fn children(&self, dir: &str) -> Vec<String> {
        let head = format!("{dir}/");
        self.nodes
            .keys()
            .filter(|p| p.starts_with(&head) && !p[head.len()..].contains('/'))
            .map(|p| p[head.len()..].to_string())
            .collect()
    }

    fn look(&self, path: &str) -> EntryLook {
        match self.node(path) {
            None => EntryLook::Missing,
            Some(Node::Dir) => EntryLook::Directory,
            Some(Node::File(_)) => EntryLook::File,
            Some(Node::Link(_)) => EntryLook::Link,
            Some(Node::Fifo) => EntryLook::Other,
        }
    }

    fn list(&self, dir: &str) -> TreeEvent {
        if self.look(dir) != EntryLook::Directory {
            return TreeEvent::Unlisted { dir: dir.to_string(), fault: ListFault::Missing };
        }
        let entry = |name: String| ListedEntry {
            path: format!("{dir}/{name}").into_bytes(),
            name: name.into_bytes(),
        };
        TreeEvent::Listed(self.children(dir).into_iter().map(entry).collect())
    }

    /// Walks the tree; gives the manifest, and each file with its bytes.
    fn walk(
        &self,
        root: &str,
        max_entries: usize,
        max_bytes: Option<u64>,
    ) -> Result<(Vec<SnapshotEntry>, Vec<(String, Vec<u8>)>), Error> {
        let (mut w, mut step) =
            TreeWalk::begin(root.as_bytes(), shown(root), max_entries, max_bytes);
        let mut open = String::new();
        let mut files = Vec::new();
        loop {
            let event = match step {
                TreeStep::List { dir } => self.list(&text(&dir)),
                TreeStep::Look { path, rel } => TreeEvent::Looked {
                    look: self.look(&text(&path)),
                    path: shown(&text(&path)),
                    rel: shown(&text(&rel)),
                },
                TreeStep::Resolve { path } => {
                    TreeEvent::Entry(match self.canonical(&text(&path)) {
                        Some(target) => EntryEvent::Resolved {
                            path: shown(&target),
                            target: target.into_bytes(),
                        },
                        None => EntryEvent::NotResolved {
                            missing: true,
                            said: "missing".to_string(),
                        },
                    })
                }
                TreeStep::LookAtTarget { path } => {
                    TreeEvent::Entry(EntryEvent::Looked(self.look(&text(&path))))
                }
                TreeStep::Open { path } => {
                    open = text(&path);
                    TreeEvent::Entry(EntryEvent::Opened(FileOpen::Opened))
                }
                TreeStep::Identify { path } => TreeEvent::Entry(EntryEvent::Identified {
                    opened: self.identity(&open),
                    at_path: self.identity(&text(&path)),
                }),
                TreeStep::Measure { path } => TreeEvent::Measured {
                    size: self.read(&text(&path)).len() as u64,
                    path: shown(&text(&path)),
                },
                TreeStep::Read { rel } => {
                    let bytes = self.read(&open);
                    let hash = FileHash::of(&bytes);
                    let read = bytes.len() as u64;
                    files.push((text(&rel), bytes));
                    TreeEvent::Whole { read, hash }
                }
                TreeStep::Done(manifest) => return Ok((manifest, files)),
                TreeStep::Failed(e) => return Err(e),
            };
            step = w.advance(event);
        }
    }

    fn snapshot(&self, root: &str, max_entries: usize) -> Result<Vec<SnapshotEntry>, Error> {
        check_snapshot_cap(max_entries)?;
        Ok(self.walk(root, max_entries, None)?.0)
    }

    fn copy_tree(
        &mut self,
        src: &str,
        dst: &str,
        max_entries: usize,
        max_total_bytes: u64,
    ) -> Result<Vec<SnapshotEntry>, Error> {
        check_copy_caps(max_entries, max_total_bytes)?;
        check_copy_roots(
            src.as_bytes(),
            self.look(src) == EntryLook::Directory,
            dst.as_bytes(),
            self.look(dst) == EntryLook::Directory,
        )?;
        let (manifest, files) = self.walk(src, max_entries, Some(max_total_bytes))?;
        for (rel, bytes) in files {
            let target = format!("{dst}/{rel}");
            self.dir(&target[..target.rfind('/').unwrap()].to_string());
            self.write(&target, &bytes);
        }
        Ok(manifest)
    }
}

fn fixture() -> Files {
    let mut files = Files::default();
    files.dir("/ws");
    files
}

fn hash(bytes: &[u8]) -> FileHash {
    FileHash::from(*blake3::hash(bytes).as_bytes())
}

// ---------------------------------------------------------------- resolving

#[test]
fn traversal_escape_rejected() {
    let h = fixture();
    for evil in ["../x", "a/../../b", "/etc/passwd", "..", "a/.."] {
        assert!(h.resolve("/ws", evil).is_err(), "{evil} must be rejected");
    }
    assert!(h.resolve("/ws", "ok.txt").is_ok());
}

#[test]
fn symlink_escape_rejected() {
    let mut h = fixture();
    h.dir("/outside");
    h.write("/outside/secret", b"s");
    h.link("/ws/link", "/outside");
    assert!(h.resolve("/ws", "link/secret").is_err());
    assert!(h.resolve("/ws", "link").is_err());
    // Inside symlink is fine.
    h.write("/ws/real", b"x");
    h.link("/ws/alias", "/ws/real");
    assert!(h.resolve("/ws", "alias").is_ok());
}

#[test]
fn a_dangling_link_is_not_a_place_to_write() {
    let mut h = fixture();
    h.link("/ws/dangling", "/outside/new");
    assert_eq!(h.resolve("/ws", "dangling").unwrap_err().kind, ErrorKind::Permission);
    assert_eq!(h.resolve("/ws", "no/such/dir").unwrap_err().kind, ErrorKind::Permission);
    assert_eq!(h.resolve("/ws", "new.txt").unwrap(), "/ws/new.txt");
}

#[test]
fn directories_are_made_within_the_root_only() {
    let mut h = fixture();
    assert_eq!(h.resolve_or_create("/ws", "a/b/c.txt").unwrap(), "/ws/a/b/c.txt");
    assert!(h.node("/ws/a/b") == Some(&Node::Dir));
    assert_eq!(h.resolve_or_create("/ws", "").unwrap_err().kind, ErrorKind::Malformed);
    for evil in ["/abs", "./x", ".", "a/../x"] {
        assert_eq!(
            h.resolve_or_create("/ws", evil).unwrap_err().kind,
            ErrorKind::Permission,
            "{evil}"
        );
    }
    h.write("/ws/file", b"f");
    assert_eq!(h.resolve_or_create("/ws", "file/x").unwrap_err().kind, ErrorKind::Conflict);
    // A link to a directory within the root is that directory; one that leads out
    // is refused, and so is one to a file.
    h.link("/ws/to-a", "/ws/a");
    assert_eq!(h.resolve_or_create("/ws", "to-a/n/x").unwrap(), "/ws/a/n/x");
    h.dir("/outside");
    h.link("/ws/out", "/outside");
    assert_eq!(h.resolve_or_create("/ws", "out/x").unwrap_err().kind, ErrorKind::Permission);
    h.link("/ws/to-file", "/ws/file");
    assert_eq!(h.resolve_or_create("/ws", "to-file/x").unwrap_err().kind, ErrorKind::Conflict);
}

#[test]
fn joining_follows_absolute_paths() {
    assert_eq!(join(b"/ws", b"a/b"), b"/ws/a/b");
    assert_eq!(join(b"/ws/", b"a"), b"/ws/a");
    assert_eq!(join(b"/ws", b"/etc"), b"/etc");
}

// -------------------------------------------------------------- open walks

#[test]
fn a_walk_opens_component_by_component() {
    let mut h = fixture();
    h.dir("/ws/a/b");
    h.write("/ws/a/b/f.txt", b"x");
    assert_eq!(h.open_walk("/ws", "a/b/f.txt").unwrap(), "/ws/a/b/f.txt");
    assert_eq!(h.open_walk("/ws", "/ws/a/b/f.txt").unwrap(), "/ws/a/b/f.txt");
    assert_eq!(h.open_walk("/ws", ".").unwrap(), "/ws");
    assert_eq!(h.open_walk("/ws", "a/none").unwrap_err().kind, ErrorKind::NotFound);
    assert_eq!(h.open_walk("/ws", "none/f").unwrap_err().kind, ErrorKind::Permission);
    assert_eq!(h.open_walk("/ws", "a/b/f.txt/x").unwrap_err().kind, ErrorKind::Permission);
    for evil in ["../x", "a/../../b", "/etc/passwd", "/wsx/f"] {
        assert_eq!(h.open_walk("/ws", evil).unwrap_err().kind, ErrorKind::Permission, "{evil}");
    }
    assert_eq!(h.open_walk("/ws", "a\0b").unwrap_err().kind, ErrorKind::Malformed);
    let long = "a/".repeat(MAX_COMPONENTS + 1);
    assert_eq!(h.open_walk("/ws", &long).unwrap_err().kind, ErrorKind::Oversized);
}

#[test]
fn a_walk_follows_links_below_the_root_only() {
    let mut h = fixture();
    h.dir("/ws/sub/deep");
    h.dir("/outside");
    h.write("/outside/secret", b"s");
    h.write("/ws/sub/real.txt", b"r");
    h.link("/ws/sub/deep/rel", "../real.txt");
    h.link("/ws/abs", "/ws/sub");
    h.link("/ws/plain", "sub/real.txt");
    h.link("/ws/out", "/outside");
    h.link("/ws/climb", "../outside/secret");
    assert_eq!(h.open_walk("/ws", "sub/deep/rel").unwrap(), "/ws/sub/real.txt");
    assert_eq!(h.open_walk("/ws", "abs/real.txt").unwrap(), "/ws/sub/real.txt");
    assert_eq!(h.open_walk("/ws", "plain").unwrap(), "/ws/sub/real.txt");
    assert_eq!(h.open_walk("/ws", "out/secret").unwrap_err().kind, ErrorKind::Permission);
    assert_eq!(h.open_walk("/ws", "climb").unwrap_err().kind, ErrorKind::Permission);
}

#[test]
fn a_loop_of_links_ends_at_the_bound() {
    let mut h = fixture();
    h.link("/ws/loop", "loop");
    let e = h.open_walk("/ws", "loop").unwrap_err();
    assert_eq!(e.kind, ErrorKind::Permission);
    assert!(e.message.contains("8-hop bound"), "{e:?}");
    assert_eq!(MAX_SYMLINK_HOPS, 8);
    // A chain of as many links as the bound allows is followed.
    h.write("/ws/l0", b"x");
    for i in 1..=9 {
        h.link(&format!("/ws/l{i}"), &format!("l{}", i - 1));
    }
    assert!(h.open_walk("/ws", "l8").is_ok());
    assert!(h.open_walk("/ws", "l9").is_err());
}

#[test]
fn accepted_components_are_plain() {
    let list = lexical_components(b"/ws", b"./a//b/.", &shown("x")).unwrap();
    assert_eq!(list, vec![b"a".to_vec(), b"b".to_vec()]);
    assert!(is_within(b"/ws", b"/ws/a"));
    assert!(is_within(b"/ws", b"/ws"));
    assert!(!is_within(b"/ws", b"/wsx/a"));
    assert_eq!(root_error(&shown("/r"), RootFault::Missing, "gone").kind, ErrorKind::NotFound);
    assert_eq!(root_error(&shown("/r"), RootFault::Swapped, "x").kind, ErrorKind::Permission);
    assert_eq!(root_error(&shown("/r"), RootFault::Nul, "x").kind, ErrorKind::Malformed);
    assert_eq!(
        root_error(&shown("/r"), RootFault::Other, "x").message,
        "workspace root /r: x"
    );
}

// ------------------------------------------------------------------ reading

/// A bounded read of this content.
fn read(content: &[u8], max_bytes: usize) -> (Vec<u8>, ContentDigest) {
    let size = content.len() as u64;
    let bytes = match read_limit(size, max_bytes) {
        Some(n) => content[..n].to_vec(),
        None => content.to_vec(),
    };
    let digest = read_digest(&bytes, size, max_bytes);
    (bytes, digest)
}

fn read_data(content: &[u8], max_bytes: usize) -> FileData {
    let (bytes, digest) = read(content, max_bytes);
    file_data(b"f".to_vec(), bytes, digest)
}

#[test]
fn read_bounded_sets_truncated_flag() {
    let content = vec![7u8; 10_000];
    let data = read_data(&content, 1000);
    assert!(data.truncated);
    assert_eq!(data.bytes.len(), 1000);
    let data = read_data(&content, 20_000);
    assert!(!data.truncated);
    assert_eq!(data.bytes.len(), 10_000);
}

#[test]
fn read_slice_pages_whole_file() {
    let content: Vec<u8> = (0..5000).map(|i| (i % 256) as u8).collect();
    let mut assembled = Vec::new();
    let mut offset = 0u64;
    loop {
        let from = (offset as usize).min(content.len());
        let to = (from + 777).min(content.len());
        let part = slice_data(
            b"paged.bin".to_vec(),
            content[from..to].to_vec(),
            offset,
            777,
            Some(content.len() as u64),
        );
        if part.bytes.is_empty() {
            break;
        }
        assembled.extend_from_slice(&part.bytes);
        offset += part.bytes.len() as u64;
        if part.truncated {
            break;
        }
    }
    assert_eq!(assembled, content);
    // Fewer bytes than asked for, before the end of the file, are a truncation.
    assert!(slice_data(b"p".to_vec(), vec![1, 2], 0, 4, Some(10)).truncated);
    assert!(!slice_data(b"p".to_vec(), vec![1, 2], 8, 4, Some(10)).truncated);
}

#[test]
fn truncated_read_produces_slice_digest_full_read_produces_full() {
    let content: Vec<u8> = (0..100_000).map(|i| (i % 253) as u8).collect();
    // Whole file: Full digest, equal to the plain read()'s hash.
    let (bytes, digest) = read(&content, 200_000);
    assert_eq!(bytes, content);
    let ContentDigest::Full(full_hash) = digest else {
        panic!("unbounded read must be Full");
    };
    let data = read_data(&content, 200_000);
    assert_eq!(data.hash, full_hash);
    assert!(!data.truncated);
    // Capped read: Slice digest of exactly the prefix, never Full.
    let (bytes, digest) = read(&content, 10_000);
    assert_eq!(bytes.len(), 10_000);
    let ContentDigest::Slice { hash: slice_hash, offset: 0, len } = digest else {
        panic!("truncated read must be Slice");
    };
    assert_eq!(len, 10_000);
    assert_eq!(
        slice_hash,
        hash(&content[..10_000]),
        "slice hash must be the hash of the returned prefix"
    );
    // A Slice over the same bytes is never equal to the Full digest of the file.
    assert_ne!(digest, ContentDigest::Full(hash(&content)));
    let data = read_data(&content, 10_000);
    assert!(data.truncated);
    assert_eq!(data.hash, slice_hash, "a read keeps the hash of its bytes");
}

#[test]
fn content_digest_full_vs_slice_never_equal() {
    let h = FileHash::from([7; 32]);
    assert_ne!(
        ContentDigest::Full(h),
        ContentDigest::Slice { hash: h, offset: 0, len: 10 },
        "Full(same-hash) must never equal a Slice: a prefix is not the file"
    );
    assert!(ContentDigest::Full(h).is_full());
    assert!(!ContentDigest::Slice { hash: h, offset: 0, len: 10 }.is_full());
}

fn stream(content: &[u8], max_bytes: Option<u64>) -> (u64, FileHash) {
    let mut s = StreamRead::new(content.len() as u64, max_bytes);
    let mut at = 0;
    loop {
        let n = s.want();
        if n == 0 {
            return s.finish();
        }
        s.take(&content[at..at + n]);
        at += n;
    }
}

#[test]
fn hash_file_streaming_matches_direct_read_and_caps() {
    // 5 MB patterned control file: the streaming hash must equal a direct
    // full read.
    let content: Vec<u8> = (0..(5 * 1024 * 1024)).map(|i| ((i * 31 + 7) % 256) as u8).collect();
    let (n, h) = stream(&content, None);
    assert_eq!(n, content.len() as u64);
    assert_eq!(h, hash(&content));
    // Capped: hashes exactly the prefix, reports the byte count.
    let (n, h) = stream(&content, Some(12_345));
    assert_eq!(n, 12_345);
    assert_eq!(h, hash(&content[..12_345]));
    // Empty file: zero bytes, empty-content hash.
    let (n, h) = stream(b"", None);
    assert_eq!(n, 0);
    assert_eq!(h, hash(b""));
}

#[test]
fn only_what_the_path_still_names_is_read() {
    let a = Some(FileIdentity { volume: 1, number: 2 });
    let b = Some(FileIdentity { volume: 1, number: 3 });
    assert!(check_identity(&shown("f"), a, a).is_ok());
    for (opened, at_path) in [(a, b), (a, None), (None, None), (None, a)] {
        let e = check_identity(&shown("f"), opened, at_path).unwrap_err();
        assert_eq!(e.kind, ErrorKind::Permission);
        assert_eq!(
            e.message,
            "\"f\" changed identity between resolution and open (TOCTOU)"
        );
    }
    assert_eq!(io_error(&shown("f"), true, "x").kind, ErrorKind::NotFound);
    assert_eq!(io_error(&shown("f"), false, "x").message, "f: x");
}

#[test]
fn watchers_report_changes_only() {
    let id = WorkspaceId::new(4);
    let e = event_of(id, b"w.txt".to_vec(), Change::Create).unwrap();
    assert_eq!((e.workspace_id, e.path, e.kind), (id, b"w.txt".to_vec(), FsEventKind::Created));
    assert_eq!(event_of(id, vec![], Change::Modify).unwrap().kind, FsEventKind::Modified);
    assert_eq!(event_of(id, vec![], Change::Remove).unwrap().kind, FsEventKind::Removed);
    assert_eq!(event_of(id, vec![], Change::Other), None);
}

// --------------------------------------------------------------- workspaces

#[test]
fn identity_verification_blocks_cross_workspace() {
    let mut service = WorkspaceFileService::new();
    let h = service.open(WorkspaceId::new(1), b"/ws", "/ws", true).unwrap();
    let wrong =
        WorkspaceIdentity::new(WorkspaceId::new(99), WorktreeId::new(1), TaskId::new(1));
    assert!(h.verify_identity(&wrong).is_err());
    let right = WorkspaceIdentity::new(WorkspaceId::new(1), WorktreeId::new(1), TaskId::new(1));
    assert!(h.verify_identity(&right).is_ok());
}

#[test]
fn open_is_idempotent_and_close_unloads() {
    let mut service = WorkspaceFileService::new();
    let h1 = service.open(WorkspaceId::new(1), b"/ws", "/ws", true).unwrap();
    let h2 = service.open(WorkspaceId::new(1), b"/ws", "/ws", true).unwrap();
    assert_eq!(h1.root(), h2.root());
    assert_eq!(service.open_count(), 1);
    // Same id, different root: conflict.
    let e = service.open(WorkspaceId::new(1), b"/other", "/other", true).unwrap_err();
    assert_eq!(e.kind, ErrorKind::Conflict);
    assert_eq!(e.message, "workspace 1 already open at /ws");
    service.close(WorkspaceId::new(1));
    assert_eq!(service.open_count(), 0);
}

#[test]
fn missing_root_not_found() {
    let mut service = WorkspaceFileService::new();
    assert!(service
        .open(WorkspaceId::new(1), b"/definitely/not/here", "/definitely/not/here", false)
        .is_err());
}

#[test]
fn list_bounded_and_sorted() {
    let found: Vec<FileMeta> = (0..30)
        .rev()
        .map(|i| FileMeta { path: format!("f{i:02}.rs").into_bytes(), size: 1, modified_ms: 0 })
        .collect();
    let list = bounded_listing(found, 10);
    assert_eq!(list.len(), 10);
    assert!(list.windows(2).all(|w| w[0].path <= w[1].path));
}

#[test]
fn paths_are_ordered_component_by_component() {
    // As a string `a-b` comes before `a/b`; by components it comes after.
    assert!(path_in_order(b"a/b", b"a-b"));
    assert!(!path_in_order(b"a-b", b"a/b"));
    assert!(path_in_order(b"a", b"a/b"));
    assert!(path_in_order(b"a/b", b"a/b"));
}

// --------------------------------------------------------- atomic replacing

#[test]
fn atomic_create_is_exclusive_and_wins_first() {
    let mut h = fixture();
    let h1 = h.create("/ws/c.txt", b"first writer").unwrap();
    let h2 = h.create("/ws/c.txt", b"second writer").unwrap_err();
    assert!(h2.message.contains("already exists"), "{h2:?}");
    assert_eq!(h2.kind, ErrorKind::Conflict);
    assert_eq!(h1, hash(b"first writer"));
    assert_eq!(h.read("/ws/c.txt"), b"first writer");
    let other = create_error(false, "t", "p", "no space");
    assert_eq!((other.kind, other.message.as_str()), (ErrorKind::Internal, "link t -> p: no space"));
    assert_eq!(temp_name("c.txt", 42, "n-1"), ".c.txt.kp-tmp-42-n-1");
}

#[test]
fn cas_matches_exact_state_and_rejects_any_change() {
    let mut h = fixture();
    let t = "/ws/cas.bin";
    h.write(t, b"original-original");
    let base = h.state_with_digest(t).unwrap();
    // Same content: passes.
    h.replace_cas(t, base.clone(), b"new-content-here!!").unwrap();
    assert_eq!(h.read(t), b"new-content-here!!");
    // Stale digest: fails, content untouched, no temp left.
    let err = h.replace_cas(t, base, b"should-not-land").unwrap_err();
    assert!(err.message.contains("cas mismatch"), "{err:?}");
    assert_eq!(h.read(t), b"new-content-here!!");
    assert_eq!(h.children("/ws"), vec!["cas.bin".to_string()]);
}

#[test]
fn cas_detects_same_size_different_digest_and_delete_recreate() {
    let mut h = fixture();
    let t = "/ws/same.bin";
    let a: Vec<u8> = vec![b'a'; 4096];
    let b: Vec<u8> = vec![b'b'; 4096];
    h.write(t, &a);
    let expected = h.state_with_digest(t).unwrap();
    // Same size, different digest.
    h.write(t, &b);
    let err = h.replace_cas(t, expected.clone(), b"nope").unwrap_err();
    assert!(err.message.contains("cas mismatch"), "{err:?}");
    assert_eq!(h.read(t), b);
    // Delete and recreate with the original content: the time differs.
    h.remove(t);
    h.write(t, &a);
    let err = h.replace_cas(t, expected, b"nope").unwrap_err();
    assert!(err.message.contains("cas mismatch"), "{err:?}");
    assert_eq!(h.read(t), a);
}

#[test]
fn cas_rejects_writes_to_a_missing_file_and_allows_absent_expectation() {
    let mut h = fixture();
    let t = "/ws/ghost.bin";
    // Expected a file, found none.
    let ghost = FileState { exists: true, size: Some(4), digest: None, modified_ms: None };
    let err = h.replace_cas(t, ghost, b"x").unwrap_err();
    assert!(err.message.contains("cas mismatch"), "{err:?}");
    assert!(h.node(t).is_none());
    // Expected absence, file absent: create succeeds (first writer wins).
    let d = h.replace_cas(t, FileState::absent(), b"first").unwrap();
    assert_eq!(h.read(t), b"first");
    assert_eq!(d, hash(b"first"));
}

#[test]
fn a_change_between_staging_and_rename_is_caught() {
    let mut h = fixture();
    let t = "/ws/f";
    h.write(t, b"base");
    let expected = FileState {
        exists: true,
        size: None,
        digest: Some(hash(b"base")),
        modified_ms: None,
    };
    let mut r = Replacement::begin(t, expected, b"new");
    assert_eq!(r.advance(ReplaceEvent::Looked(h.seen(t))), ReplaceStep::Stage);
    assert_eq!(r.advance(ReplaceEvent::Staged { tmp: "t".to_string() }), ReplaceStep::Recheck);
    h.write(t, b"meanwhile");
    match r.advance(ReplaceEvent::Rechecked(h.state_with_digest(t).unwrap())) {
        ReplaceStep::Failed { error, discard } => {
            assert_eq!(error.kind, ErrorKind::Conflict);
            assert!(discard);
        }
        other => panic!("a changed file must not be renamed over: {other:?}"),
    }
}

#[test]
fn a_mismatch_names_both_states() {
    let expected =
        FileState { exists: true, size: Some(4), digest: Some(FileHash([0xab; 32])), modified_ms: None };
    let e = check_state("/ws/f", &expected, &FileState::absent()).unwrap_err();
    assert_eq!(
        e.message,
        format!(
            "/ws/f changed since it was staged (cas mismatch; expected exists=true size=Some(4) \
             digest=Some(\"{}\"), found exists=false size=None digest=None)",
            "ab".repeat(32)
        )
    );
    let failed = FileState::from_seen("/ws/f", Seen::Failed("denied".to_string())).unwrap_err();
    assert_eq!(failed.message, "stat /ws/f: denied");
}

#[test]
fn write_atomic_cas_rejects_stale_writes_and_never_clobbers() {
    let mut h = fixture();
    let t = "/ws/cas.txt";
    h.write(t, b"original-0123456789");
    let first = read_data(&h.read(t), 100);
    // Same state: succeeds.
    let staged = staged_expectation("cas.txt", h.state(t).unwrap(), first.hash).unwrap();
    let new_hash = h.replace_cas(t, staged, b"edited-by-tool").unwrap();
    let after = read_data(&h.read(t), 100);
    assert_eq!(after.bytes, b"edited-by-tool");
    assert_eq!(after.hash, new_hash);
    // Stale expected hash: the file moved on; the write must be rejected.
    let stale = first.hash;
    h.write(t, b"other-writer-0987654321");
    let staged = staged_expectation("cas.txt", h.state(t).unwrap(), stale).unwrap();
    let err = h.replace_cas(t, staged, b"late-edit-should-fail").unwrap_err();
    assert!(
        err.message.contains("cas mismatch") || err.message.contains("changed"),
        "{err:?}"
    );
    assert_eq!(h.read(t), b"other-writer-0987654321");
    // Deleted underneath: never silently recreated from a stale patch.
    h.remove(t);
    let err = staged_expectation("cas.txt", h.state(t).unwrap(), stale).unwrap_err();
    assert!(err.kind == ErrorKind::Conflict || err.kind == ErrorKind::NotFound, "{err:?}");
    assert!(h.node(t).is_none());
}

// -------------------------------------------------------------------- trees

fn tree_fixture(h: &mut Files, root: &str) {
    h.dir(&format!("{root}/src/deep"));
    h.write(&format!("{root}/a.txt"), b"alpha");
    h.write(&format!("{root}/src/b.rs"), b"mod b;");
    h.write(&format!("{root}/src/deep/c.rs"), b"fn c() {}");
}

fn paths(list: &[SnapshotEntry]) -> Vec<String> {
    list.iter().map(|e| text(&e.path)).collect()
}

#[test]
fn snapshot_hashes_whole_files_sorted_and_bounded() {
    let mut h = fixture();
    tree_fixture(&mut h, "/ws");
    let snap = h.snapshot("/ws", 100).unwrap();
    assert_eq!(paths(&snap), vec!["a.txt", "src/b.rs", "src/deep/c.rs"]);
    for e in &snap {
        let whole = h.read(&format!("/ws/{}", text(&e.path)));
        assert_eq!(e.hash, hash(&whole));
        assert_eq!(e.size, whole.len() as u64);
    }
    // Entry cap: typed Oversized, never a silent truncation.
    let err = h.snapshot("/ws", 2).unwrap_err();
    assert_eq!(err.kind, ErrorKind::Oversized);
    assert!(err.message.contains("cap"), "{err:?}");
    assert_eq!(h.snapshot("/ws", 0).unwrap_err().kind, ErrorKind::Malformed);
}

#[test]
fn snapshot_refuses_symlink_escape_and_unsupported_entries_loudly() {
    let mut h = fixture();
    h.dir("/outside");
    h.write("/outside/secret.txt", b"s");
    h.write("/ws/ok.txt", b"ok");
    // File symlink pointing outside the tree: the snapshot must fail loudly.
    h.link("/ws/evil-link", "/outside/secret.txt");
    let err = h.snapshot("/ws", 100).unwrap_err();
    assert_eq!(err.kind, ErrorKind::Permission);
    assert!(err.message.contains("escape"), "{err:?}");
    h.remove("/ws/evil-link");
    // A FIFO is not a file: loud, never skipped.
    h.put("/ws/fifo", Node::Fifo);
    let err = h.snapshot("/ws", 100).unwrap_err();
    assert!(err.message.contains("unsupported"), "{err:?}");
    h.remove("/ws/fifo");
    // Inside-root file symlink is fine.
    h.link("/ws/alias", "/ws/ok.txt");
    let snap = h.snapshot("/ws", 100).unwrap();
    assert_eq!(paths(&snap), vec!["alias", "ok.txt"]);
    assert_eq!(snap[0].hash, snap[1].hash, "alias hashes the target");
    // A link that leads nowhere cannot be resolved safely.
    h.link("/ws/nowhere", "/ws/none");
    assert_eq!(h.snapshot("/ws", 100).unwrap_err().kind, ErrorKind::Permission);
}

#[test]
fn copy_tree_replicates_content_and_respects_both_caps() {
    let mut h = Files::default();
    h.dir("/d/src");
    h.dir("/d/dst");
    tree_fixture(&mut h, "/d/src");
    let manifest = h.copy_tree("/d/src", "/d/dst", 100, 1_000_000).unwrap();
    assert_eq!(manifest.len(), 3);
    assert_eq!(manifest, h.snapshot("/d/src", 100).unwrap());
    assert_eq!(manifest, h.snapshot("/d/dst", 100).unwrap());
    for e in &manifest {
        let rel = text(&e.path);
        assert_eq!(h.read(&format!("/d/src/{rel}")), h.read(&format!("/d/dst/{rel}")));
    }
    // Entry cap and byte cap are loud Oversized.
    let err = h.copy_tree("/d/src", "/d/dst", 2, 1_000_000).unwrap_err();
    assert_eq!(err.kind, ErrorKind::Oversized);
    assert!(err.message.contains("entry"), "{err:?}");
    let err = h.copy_tree("/d/src", "/d/dst", 100, 3).unwrap_err();
    assert_eq!(err.kind, ErrorKind::Oversized);
    assert!(err.message.contains("byte"), "{err:?}");
    // Same tree is refused; a missing root is not found.
    assert_eq!(
        h.copy_tree("/d/src", "/d/src", 100, 1_000_000).unwrap_err().kind,
        ErrorKind::Conflict
    );
    assert_eq!(
        h.copy_tree("/d/ghost", "/d/dst", 100, 1_000_000).unwrap_err().kind,
        ErrorKind::NotFound
    );
    assert_eq!(h.copy_tree("/d/src", "/d/dst", 0, 1).unwrap_err().kind, ErrorKind::Malformed);
    assert_eq!(
        check_copied(&shown("f"), 3, 4).unwrap_err().message,
        "\"f\" changed size while being copied (3 of 4 bytes)"
    );
}

#[test]
fn a_tree_that_is_too_deep_is_refused() {
    assert!(check_snapshot_root("/w", true).is_ok());
    assert_eq!(
        check_snapshot_root("/w", false).unwrap_err().message,
        "snapshot root /w is not a directory"
    );
    assert!(check_depth(MAX_TREE_WALK_DEPTH, &shown("d")).is_ok());
    assert_eq!(
        check_depth(MAX_TREE_WALK_DEPTH + 1, &shown("d")).unwrap_err().message,
        "tree walk exceeded depth 256 at \"d\""
    );
}

#[test]
fn a_raced_entry_is_tried_again_and_not_counted_twice() {
    let mut budget = EntryBudget::new(3);
    let look = |budget: &mut EntryBudget| {
        let mut e = EntryWalk::begin(b"/ws", shown("/ws"), shown("/ws/f"), shown("f"));
        assert_eq!(
            e.advance(budget, EntryEvent::Looked(EntryLook::File)),
            EntryStep::Open { linked: false }
        );
        e
    };
    // A file that vanished before it was opened is gone, and not counted.
    let mut e = look(&mut budget);
    assert_eq!(budget.count(), 1);
    let gone = FileOpen::Missing("missing".to_string());
    assert_eq!(e.advance(&mut budget, EntryEvent::Opened(gone)), EntryStep::Gone);
    assert_eq!(budget.count(), 0);
    // One that was swapped is refused, and the count goes back.
    let mut e = look(&mut budget);
    let identify = EntryStep::Identify { linked: false };
    assert_eq!(e.advance(&mut budget, EntryEvent::Opened(FileOpen::Opened)), identify);
    let swapped = EntryEvent::Identified {
        opened: Some(FileIdentity { volume: 1, number: 1 }),
        at_path: Some(FileIdentity { volume: 1, number: 2 }),
    };
    let EntryStep::Raced(error) = e.advance(&mut budget, swapped) else {
        panic!("a swapped file must be refused");
    };
    assert_eq!(settle(&mut budget, 0, 0, Setback::Raced(error.clone())), Settled::Again);
    assert_eq!(budget.count(), 0);
    let last = WALK_ENTRY_ATTEMPTS - 1;
    assert_eq!(
        settle(&mut budget, 0, last, Setback::Raced(error.clone())),
        Settled::Failed(error.clone())
    );
    // A real failure is not tried again.
    assert_eq!(
        settle(&mut budget, 0, 0, Setback::Failed(error.clone())),
        Settled::Failed(error)
    );
}

fn entry(name: &str, path: &str) -> ListedEntry {
    ListedEntry { name: name.as_bytes().to_vec(), path: path.as_bytes().to_vec() }
}

fn looked(look: EntryLook, path: &str, rel: &str) -> TreeEvent {
    TreeEvent::Looked { look, path: shown(path), rel: shown(rel) }
}

#[test]
fn a_walk_into_too_deep_a_tree_fails_at_once() {
    let (mut w, mut step) = TreeWalk::begin(b"/w", shown("/w"), 10, None);
    let mut events = 0;
    let error = loop {
        let event = match step {
            TreeStep::List { .. } => TreeEvent::Listed(vec![entry("d", "/w/d")]),
            TreeStep::Look { .. } => looked(EntryLook::Directory, "/w/d", "d"),
            TreeStep::Failed(e) => break e,
            other => panic!("{other:?}"),
        };
        events += 1;
        step = w.advance(event);
    };
    assert_eq!(error.kind, ErrorKind::Oversized);
    assert_eq!(error.message, "tree walk exceeded depth 256 at \"d\"");
    assert_eq!(events, 2 * (MAX_TREE_WALK_DEPTH + 1));
    assert_eq!(w.stage(), TreeStage::Finished);
}

#[test]
fn a_tree_deeper_than_the_bound_is_refused_and_one_at_the_bound_is_not() {
    let mut h = fixture();
    let at_bound = format!("/ws{}", "/d".repeat(MAX_TREE_WALK_DEPTH));
    h.dir(&at_bound);
    h.write(&format!("{at_bound}/f"), b"deep");
    assert_eq!(h.snapshot("/ws", 10).unwrap().len(), 1);
    h.dir(&format!("{at_bound}/d"));
    assert_eq!(h.snapshot("/ws", 10).unwrap_err().kind, ErrorKind::Oversized);
    // A link to a directory above leads ever deeper.
    let mut h = fixture();
    h.dir("/ws/sub");
    h.link("/ws/sub/up", "/ws");
    assert_eq!(h.snapshot("/ws", 10).unwrap_err().kind, ErrorKind::Oversized);
}

#[test]
fn an_entry_that_keeps_changing_fails_after_its_attempts() {
    let (mut w, step) = TreeWalk::begin(b"/w", shown("/w"), 1, None);
    assert_eq!(step, TreeStep::List { dir: b"/w".to_vec() });
    let look = TreeStep::Look { path: b"/w/f".to_vec(), rel: b"f".to_vec() };
    assert_eq!(w.advance(TreeEvent::Listed(vec![entry("f", "/w/f")])), look);
    for attempt in 0..WALK_ENTRY_ATTEMPTS {
        let open = TreeStep::Open { path: b"/w/f".to_vec() };
        assert_eq!(w.advance(looked(EntryLook::File, "/w/f", "f")), open);
        let identify = TreeStep::Identify { path: b"/w/f".to_vec() };
        assert_eq!(w.advance(TreeEvent::Entry(EntryEvent::Opened(FileOpen::Opened))), identify);
        let swapped = TreeEvent::Entry(EntryEvent::Identified {
            opened: Some(FileIdentity { volume: 1, number: 1 }),
            at_path: Some(FileIdentity { volume: 1, number: 2 }),
        });
        match w.advance(swapped) {
            TreeStep::Failed(e) => {
                assert_eq!(attempt, WALK_ENTRY_ATTEMPTS - 1);
                assert_eq!(e.kind, ErrorKind::Permission);
            }
            step => {
                assert!(attempt < WALK_ENTRY_ATTEMPTS - 1);
                assert_eq!(step, look);
            }
        }
    }
    assert_eq!(w.stage(), TreeStage::Finished);
}

#[test]
fn a_directory_that_cannot_be_listed_is_gone_raced_or_refused() {
    let start = || {
        let (mut w, _) = TreeWalk::begin(b"/w", shown("/w"), 4, None);
        let two = vec![entry("d", "/w/d"), entry("e", "/w/e")];
        w.advance(TreeEvent::Listed(two));
        let list = TreeStep::List { dir: b"/w/d".to_vec() };
        assert_eq!(w.advance(looked(EntryLook::Directory, "/w/d", "d")), list);
        w
    };
    let unlisted = |fault| TreeEvent::Unlisted { dir: "/w/d".to_string(), fault };
    let next = TreeStep::Look { path: b"/w/e".to_vec(), rel: b"e".to_vec() };
    let again = TreeStep::Look { path: b"/w/d".to_vec(), rel: b"d".to_vec() };
    assert_eq!(start().advance(unlisted(ListFault::Missing)), next);
    assert_eq!(start().advance(unlisted(ListFault::Replaced("no".to_string()))), again);
    let TreeStep::Failed(e) = start().advance(unlisted(ListFault::Failed("denied".to_string())))
    else {
        panic!("an unreadable directory must fail the walk");
    };
    assert_eq!(e.kind, ErrorKind::Internal);
    assert_eq!(e.message, "read_dir /w/d: denied");
    // A root that is gone holds nothing.
    let (mut w, _) = TreeWalk::begin(b"/w", shown("/w"), 4, None);
    assert_eq!(w.advance(unlisted(ListFault::Missing)), TreeStep::Done(Vec::new()));
}

#[test]
fn a_file_that_changes_size_while_it_is_copied_is_a_conflict() {
    let measured = || {
        let (mut w, _) = TreeWalk::begin(b"/w", shown("/w"), 4, Some(10));
        w.advance(TreeEvent::Listed(vec![entry("f", "/w/f")]));
        w.advance(looked(EntryLook::File, "/w/f", "f"));
        w.advance(TreeEvent::Entry(EntryEvent::Opened(FileOpen::Opened)));
        let same = Some(FileIdentity { volume: 1, number: 1 });
        w.advance(TreeEvent::Entry(EntryEvent::Identified { opened: same, at_path: same }));
        w
    };
    let mut w = measured();
    let read = TreeStep::Read { rel: b"f".to_vec() };
    assert_eq!(w.advance(TreeEvent::Measured { size: 4, path: shown("/w/f") }), read);
    let TreeStep::Failed(e) = w.advance(TreeEvent::Whole { read: 3, hash: hash(b"abc") }) else {
        panic!("a torn copy must fail");
    };
    assert_eq!(e.kind, ErrorKind::Conflict);
    assert_eq!(e.message, "\"f\" changed size while being copied (3 of 4 bytes)");
    let TreeStep::Failed(e) =
        measured().advance(TreeEvent::Measured { size: 11, path: shown("/w/f") })
    else {
        panic!("a copy beyond the total must fail");
    };
    assert_eq!(e.message, "copy of \"/w/f\" would exceed the 10-byte total bound");
    let TreeStep::Failed(e) =
        measured().advance(TreeEvent::Unread(Error::internal("read: torn".to_string())))
    else {
        panic!("an unreadable file must fail the walk");
    };
    assert_eq!(e.message, "read: torn");
}

// ------------------------------------------------------------------- merges

fn merge_fixture() -> Files {
    let mut h = Files::default();
    h.dir("/d/parent");
    h.dir("/d/child");
    h
}

#[test]
fn merge_apply_classifies_conflict_already_current_and_applied() {
    let mut h = merge_fixture();
    let (parent, child) = ("/d/parent", "/d/child");
    h.write("/d/parent/f.rs", b"base-content");
    let base_hash = hash(b"base-content");
    h.write("/d/child/f.rs", b"child-edit");
    let child_hash = hash(b"child-edit");
    // Parent unchanged since base: applied, digest preserved.
    let r = h.merge(parent, "f.rs", child, "f.rs", child_hash, Some(base_hash)).unwrap();
    assert_eq!(r, CasMergeResult::Applied);
    assert_eq!(h.read("/d/parent/f.rs"), b"child-edit");
    // Replay: already merged content.
    let r = h.merge(parent, "f.rs", child, "f.rs", child_hash, Some(base_hash)).unwrap();
    assert_eq!(r, CasMergeResult::AlreadyCurrent);
    assert_eq!(h.read("/d/parent/f.rs"), b"child-edit");
    // Parent moved on (different content): conflict, parent intact.
    h.write("/d/parent/f.rs", b"parent-edit-after-base");
    let err = h.merge(parent, "f.rs", child, "f.rs", child_hash, Some(base_hash)).unwrap_err();
    assert_eq!(err.kind, ErrorKind::Conflict);
    assert_eq!(
        h.read("/d/parent/f.rs"),
        b"parent-edit-after-base",
        "the conflicting parent file must stay byte-identical"
    );
    // Parent file vanished: never recreated from a stale patch.
    h.remove("/d/parent/f.rs");
    let err = h.merge(parent, "f.rs", child, "f.rs", child_hash, Some(base_hash)).unwrap_err();
    assert_eq!(err.kind, ErrorKind::Conflict);
    assert!(h.node("/d/parent/f.rs").is_none());
    // Child content drifted since staging: conflict, nothing merged.
    h.write("/d/parent/f.rs", b"base-content");
    h.write("/d/child/f.rs", b"child-changed-again");
    let err = h.merge(parent, "f.rs", child, "f.rs", child_hash, Some(base_hash)).unwrap_err();
    assert_eq!(err.kind, ErrorKind::Conflict);
    assert!(err.message.contains("drifted"), "{err:?}");
    assert_eq!(h.read("/d/parent/f.rs"), b"base-content");
}

#[test]
fn merge_create_is_exclusive_and_replay_safe() {
    let mut h = merge_fixture();
    let (parent, child) = ("/d/parent", "/d/child");
    h.write("/d/child/new.txt", b"child-new-file");
    let child_hash = hash(b"child-new-file");
    // Base had no such file: exclusive create.
    let r = h.merge(parent, "new.txt", child, "new.txt", child_hash, None).unwrap();
    assert_eq!(r, CasMergeResult::Applied);
    assert_eq!(h.read("/d/parent/new.txt"), b"child-new-file");
    // Replay: file already holds the child digest.
    let r = h.merge(parent, "new.txt", child, "new.txt", child_hash, None).unwrap();
    assert_eq!(r, CasMergeResult::AlreadyCurrent);
    // A parent-side file appeared since the base: conflict, never an overwrite.
    h.write("/d/parent/new.txt", b"parent-made-this");
    let err = h.merge(parent, "new.txt", child, "new.txt", child_hash, None).unwrap_err();
    assert_eq!(err.kind, ErrorKind::Conflict);
    assert_eq!(h.read("/d/parent/new.txt"), b"parent-made-this");
}

#[test]
fn merge_create_materializes_missing_parent_dirs_inside_the_root_only() {
    let mut h = merge_fixture();
    let (parent, child) = ("/d/parent", "/d/child");
    h.dir("/d/child/sub/deep");
    h.write("/d/child/sub/deep/new.rs", b"child-nested");
    let child_hash = hash(b"child-nested");
    let rel = "sub/deep/new.rs";
    let r = h.merge(parent, rel, child, rel, child_hash, None).unwrap();
    assert_eq!(r, CasMergeResult::Applied);
    assert_eq!(h.read("/d/parent/sub/deep/new.rs"), b"child-nested");
    // Replay after the dirs exist.
    let r = h.merge(parent, rel, child, rel, child_hash, None).unwrap();
    assert_eq!(r, CasMergeResult::AlreadyCurrent);
    // A create that must walk through an existing file is a conflict.
    h.write("/d/parent/blocker", b"i-am-a-file");
    h.dir("/d/child/blocker/x");
    h.write("/d/child/blocker/x/y.rs", b"z");
    let err = h
        .merge(parent, "blocker/x/y.rs", child, "blocker/x/y.rs", hash(b"z"), None)
        .unwrap_err();
    assert_eq!(err.kind, ErrorKind::Conflict, "{err:?}");
    assert_eq!(h.read("/d/parent/blocker"), b"i-am-a-file");
}

#[test]
fn merge_delete_removes_only_the_base_content() {
    let mut h = merge_fixture();
    h.write("/d/parent/gone.rs", b"base-content");
    let base_hash = hash(b"base-content");
    assert_eq!(
        h.merge_delete("/d/parent", "gone.rs", base_hash).unwrap(),
        CasMergeResult::Applied
    );
    assert!(h.node("/d/parent/gone.rs").is_none());
    // Replay: the end state (absent) holds.
    assert_eq!(
        h.merge_delete("/d/parent", "gone.rs", base_hash).unwrap(),
        CasMergeResult::AlreadyCurrent
    );
    // Parent content moved on: the deletion is refused, file intact.
    h.write("/d/parent/gone.rs", b"parent-recreated");
    let err = h.merge_delete("/d/parent", "gone.rs", base_hash).unwrap_err();
    assert_eq!(err.kind, ErrorKind::Conflict);
    assert_eq!(h.read("/d/parent/gone.rs"), b"parent-recreated");
    // What is no file is not deleted.
    h.dir("/d/parent/dir");
    let err = h.merge_delete("/d/parent", "dir", base_hash).unwrap_err();
    assert_eq!(err.message, "/d/parent/dir is not a readable file; the deletion was refused");
    assert_eq!(remove_error(&shown("p"), "busy").message, "remove p: busy");
}

#[test]
fn merge_paths_are_resolved_traversal_and_escape_safe() {
    let mut h = merge_fixture();
    let (parent, child) = ("/d/parent", "/d/child");
    h.write("/d/child/x.txt", b"x");
    let x = hash(b"x");
    for evil in ["../x.txt", "a/../../x.txt", "/etc/x.txt", ".."] {
        let err = h.merge(parent, evil, child, "x.txt", x, None).unwrap_err();
        assert_eq!(err.kind, ErrorKind::Permission, "{evil} must be refused");
    }
    let r = h.merge(parent, "x.txt", child, "x.txt", x, None).unwrap();
    assert_eq!(r, CasMergeResult::Applied);
    // A symlink that escapes the parent root must never be followed for the
    // write.
    h.dir("/d/outside-root");
    h.write("/d/outside-root/victim.txt", b"v");
    h.dir("/d/parent/sub");
    h.link("/d/parent/sub/link-out", "/d/outside-root");
    h.write("/d/child/payload.txt", b"p");
    let err = h
        .merge(parent, "sub/link-out/victim.txt", child, "payload.txt", hash(b"p"), None)
        .unwrap_err();
    assert_eq!(err.kind, ErrorKind::Permission);
    assert_eq!(h.read("/d/outside-root/victim.txt"), b"v");
    assert_eq!(h.merge_delete(parent, "../x", x).unwrap_err().kind, ErrorKind::Permission);
}

#[test]
fn merge_sources_are_bounded_and_pinned() {
    let start = || {
        let mut m = Merge::begin("/p", "/c", shown("f"), hash(b"s"), Some(hash(b"b")));
        for event in [
            MergeEvent::RootFound,
            MergeEvent::RootFound,
            MergeEvent::Placed(shown("/p/f")),
            MergeEvent::Placed(shown("/c/f")),
        ] {
            m.advance(event);
        }
        let base = FileState {
            exists: true,
            size: Some(1),
            digest: Some(hash(b"b")),
            modified_ms: None,
        };
        assert_eq!(m.advance(MergeEvent::Looked(base)), MergeStep::Size);
        m
    };
    let failed = |step: MergeStep| match step {
        MergeStep::Failed(e) => e,
        other => panic!("expected a refusal, got {other:?}"),
    };
    let e = failed(start().advance(MergeEvent::Sized(MAX_MERGE_FILE_BYTES + 1)));
    assert_eq!(e.kind, ErrorKind::Oversized);
    let mut m = start();
    assert_eq!(m.advance(MergeEvent::Sized(MAX_MERGE_FILE_BYTES)), MergeStep::Open);
    let swapped = MergeEvent::Opened {
        opened: Some(FileIdentity { volume: 1, number: 1 }),
        at_path: Some(FileIdentity { volume: 1, number: 2 }),
    };
    assert_eq!(failed(m.advance(swapped)).kind, ErrorKind::Permission);
    let e = failed(start().advance(MergeEvent::SourceFailed {
        missing: true,
        said: "gone".to_string(),
    }));
    assert_eq!(e.kind, ErrorKind::NotFound);
    // A conflict of the write itself is told with the destination in front.
    let mut m = start();
    m.advance(MergeEvent::Sized(1));
    let same = Some(FileIdentity { volume: 1, number: 1 });
    m.advance(MergeEvent::Opened { opened: same, at_path: same });
    assert!(matches!(m.advance(MergeEvent::Read(b"s".to_vec())), MergeStep::Replace { .. }));
    let e = failed(m.advance(MergeEvent::WriteFailed(Error::conflict(
        "cas mismatch; found another".to_string(),
    ))));
    assert_eq!((e.kind, e.message.as_str()), (ErrorKind::Conflict, "/p/f: found another"));
    let mut m = Merge::begin("/p", "/c", shown("f"), hash(b"s"), None);
    let e = failed(m.advance(MergeEvent::RootMissing { said: "gone".to_string() }));
    assert_eq!(
        (e.kind, e.message.as_str()),
        (ErrorKind::NotFound, "merge destination root /p: gone")
    );
}

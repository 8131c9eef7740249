//! Worktrees: their names, their owners and their records.
use faktor::error::ErrorKind;
use faktor::git::{
    check_repository, git_result, load_meta, strip_exit_trailer, truncate, validate_branch, validate_name, MetaEntry,
    Worktree, WorktreeManager, META_MAX_BRANCH_BYTES, META_MAX_ENTRIES, META_MAX_PATH_BYTES,
};
use faktor::ids::{SessionId, WorktreeId};

const REPO: &str = "/repo";

/// What git lists of a repository with these worktrees.
fn listing(trees: &[(&str, &str)]) -> String {
    let mut out = format!("worktree {REPO}\nHEAD 0123\nbranch refs/heads/main\n\n");
    for (path, branch) in trees {
        out.push_str(&format!("worktree {path}\nHEAD 4567\nbranch refs/heads/{branch}\n\n"));
    }
    out
}

/// Makes a worktree and records it.
fn create(
    mgr: &mut WorktreeManager,
    records: &mut Vec<MetaEntry>,
    branch: &str,
    name: &str,
    owner: u64,
) -> Worktree {
    let id = mgr.reserve(branch, name).unwrap();
    let wt = WorktreeManager::create(id, REPO, branch, name, SessionId::new(owner));
    records.push(MetaEntry::of(&wt, 5));
    wt
}

#[test]
fn create_worktree_has_valid_git_metadata() {
    let mut mgr = WorktreeManager::new();
    let wt = create(&mut mgr, &mut Vec::new(), "feat/x", "wt1", 7);
    assert_eq!(wt.path, "/repo/.worktrees/wt1");
    assert_eq!(wt.owner_session, Some(SessionId::new(7)));
    let v = WorktreeManager::validate(
        true,
        true,
        Some("feat/x\n".to_string()),
        Some("\n".to_string()),
    );
    assert!(v.exists);
    assert!(v.has_git_file);
    assert_eq!(v.branch.as_deref(), Some("feat/x"));
    assert!(v.clean);
}

#[test]
fn discover_finds_created_worktrees() {
    let mut mgr = WorktreeManager::new();
    let mut records = Vec::new();
    let a = create(&mut mgr, &mut records, "feat/a", "wt-a", 1);
    let b = create(&mut mgr, &mut records, "feat/b", "wt-b", 1);
    let out = listing(&[(&a.path, "feat/a"), (&b.path, "feat/b")]);
    let (found, _) = mgr.discover(&out, REPO, &mut records);
    assert!(
        found.iter().any(|w| w.path == a.path),
        "discover must include the created worktree"
    );
    assert!(found.len() >= 2);
}

#[test]
fn validate_rejects_missing_dir_and_accepts_healthy() {
    let healthy = WorktreeManager::validate(true, true, Some("feat/c".to_string()), None);
    assert!(healthy.has_git_file);
    assert!(!healthy.clean);
    let bad = WorktreeManager::validate(false, false, None, None);
    assert!(!bad.exists);
    assert!(!bad.has_git_file);
    let dirty = WorktreeManager::validate(true, true, None, Some(" M a.rs\n".to_string()));
    assert!(!dirty.clean);
}

#[test]
fn remove_removes_worktree() {
    let mut mgr = WorktreeManager::new();
    let mut records = Vec::new();
    let wt = create(&mut mgr, &mut records, "feat/d", "wt-d", 1);
    let left = WorktreeManager::remove(&records, &wt.path);
    assert!(left.iter().all(|e| e.path != wt.path), "worktree must be removed");
}

#[test]
fn transfer_is_deliberate_and_validates() {
    let mut mgr = WorktreeManager::new();
    let mut records = Vec::new();
    let wt = create(&mut mgr, &mut records, "feat/e", "wt-e", 1);
    WorktreeManager::transfer(&mut records, &wt, true, SessionId::new(2), 9).unwrap();
    assert_eq!(records[0].owner_session, 2);
    // Transfer of a missing worktree is loud.
    let ghost = Worktree {
        id: wt.id,
        workspace_root: REPO.to_string(),
        path: "/repo/gone".to_string(),
        branch: "x".to_string(),
        owner_session: Some(SessionId::new(1)),
    };
    let before = records.clone();
    assert!(
        WorktreeManager::transfer(&mut records, &ghost, false, SessionId::new(3), 9).is_err()
    );
    assert_eq!(records, before);
    // One without a record gets one.
    WorktreeManager::transfer(&mut records, &ghost, true, SessionId::new(3), 9).unwrap();
    assert_eq!(records[1].owner_session, 3);
    assert_eq!(records[1].created_ms, 9);
}

#[test]
fn git_command_failure_is_loud() {
    let args = vec!["status".to_string()];
    assert!(check_repository("/r", true).is_ok());
    assert_eq!(check_repository("/r", false).unwrap_err().message, "repository /r not found");
    let err = git_result(&args, Some(128), "fatal: not a git repository").unwrap_err();
    assert!(err.kind == ErrorKind::Internal, "{err:?}");
    assert!(err.message.starts_with("git status failed (128)"), "{err:?}");
    let err = git_result(&args, None, "").unwrap_err();
    assert!(err.message.starts_with("git status failed (-1)"), "{err:?}");
    assert_eq!(git_result(&args, Some(0), "clean").unwrap(), "clean");
}

#[test]
fn malicious_branch_name_rejected() {
    let mut mgr = WorktreeManager::new();
    for evil in [
        "../escape",
        "a b",
        "x; rm -rf /",
        "-leading",
        "a..b",
        "tab\tname",
        "ctrl\x07",
    ] {
        assert!(
            mgr.reserve(evil, "wt-evil").is_err(),
            "branch {evil:?} must be rejected before spawn"
        );
    }
    for evil in ["../esc", "a/b", "with space", "a..b"] {
        assert!(
            mgr.reserve("ok-branch", evil).is_err(),
            "name {evil:?} must be rejected before spawn"
        );
    }
    assert_eq!(mgr.reserve("ok-branch", "ok").unwrap(), WorktreeId::new(1), "no id was lost");
}

#[test]
fn concurrent_creates_get_distinct_worktree_ids() {
    let mut mgr = WorktreeManager::new();
    let mut ids = std::collections::HashSet::new();
    for i in 0..4 {
        let id = mgr.reserve(&format!("feat/cc{i}"), &format!("wt-cc{i}")).unwrap();
        assert!(ids.insert(id.raw()), "worktree ids must be unique");
    }
    assert_eq!(ids.len(), 4);
}

#[test]
fn branch_validation_edge_cases() {
    assert!(validate_branch("feat/x-1").is_ok());
    assert!(validate_branch("main").is_ok());
    assert!(validate_branch("").is_err());
    assert!(validate_branch(&"x".repeat(200)).is_err());
}

#[test]
fn transfer_changes_owner_durably_across_managers() {
    let mut mgr = WorktreeManager::new();
    let mut records = Vec::new();
    let wt = create(&mut mgr, &mut records, "feat/durable", "wt-durable", 1);
    WorktreeManager::transfer(&mut records, &wt, true, SessionId::new(2), 9).unwrap();
    // A brand-new manager: the owner is durable.
    let mut fresh = WorktreeManager::new();
    let out = listing(&[(&wt.path, "feat/durable")]);
    let (found, _) = fresh.discover(&out, REPO, &mut records);
    let owned = found.iter().find(|w| w.path == wt.path).expect("worktree still discovered");
    assert_eq!(owned.owner_session, Some(SessionId::new(2)));
    // The owner is recorded from creation too.
    let wt2 = create(&mut mgr, &mut records, "feat/b", "wt-b", 7);
    let both = listing(&[(&wt.path, "feat/durable"), (&wt2.path, "feat/b")]);
    let (found2, _) = WorktreeManager::new().discover(&both, REPO, &mut records);
    let owned2 = found2.iter().find(|w| w.path == wt2.path).unwrap();
    assert_eq!(owned2.owner_session, Some(SessionId::new(7)));
    // Remove drops the record: a fresh discover no longer sees it.
    let mut records = WorktreeManager::remove(&records, &wt2.path);
    let (found3, _) = WorktreeManager::new().discover(&out, REPO, &mut records);
    assert!(
        !found3.iter().any(|w| w.path == wt2.path),
        "removed worktree must be gone from discovery"
    );
    assert!(records.iter().all(|e| e.path != wt2.path));
}

#[test]
fn discover_never_invents_owners_for_unknown_worktrees() {
    let mut mgr = WorktreeManager::new();
    let mut records = Vec::new();
    let out = listing(&[("/repo/.worktrees/raw", "feat/raw")]);
    let (found, saw_new) = mgr.discover(&out, REPO, &mut records);
    let raw = found
        .iter()
        .find(|w| w.path == "/repo/.worktrees/raw")
        .expect("raw worktree discovered by git");
    assert_eq!(raw.owner_session, None, "no recorded owner: never an invented session");
    assert!(saw_new);
    // It is recorded now, and keeps its id.
    let (again, saw_new) = mgr.discover(&out, REPO, &mut records);
    assert!(!saw_new);
    assert_eq!(found, again);
}

#[test]
fn repair_prunes_vanished_worktree_metadata() {
    let mut mgr = WorktreeManager::new();
    let mut records = Vec::new();
    let gone = create(&mut mgr, &mut records, "feat/gone", "wt-gone", 1);
    let here = create(&mut mgr, &mut records, "feat/here", "wt-here", 1);
    let (kept, repaired) = WorktreeManager::repair(&records, &vec![false, true]);
    assert!(
        repaired.iter().any(|p| p.contains("wt-gone")),
        "repair must report the pruned worktree: {repaired:?}"
    );
    assert_eq!(repaired, vec![gone.path]);
    assert_eq!(kept.len(), 1);
    assert_eq!(kept[0].path, here.path);
}

#[test]
fn names_are_bounded_and_plain() {
    assert!(validate_name("wt-1").is_ok());
    assert!(validate_name("").is_err());
    assert!(validate_name(&"n".repeat(200)).is_err());
    assert_eq!(validate_name("a/b").unwrap_err().kind, ErrorKind::Malformed);
    assert_eq!(validate_branch("a b").unwrap_err().kind, ErrorKind::Malformed);
}

#[test]
fn records_are_bounded_when_they_are_read() {
    let entry = |path: &str, branch: &str| MetaEntry {
        id: 1,
        path: path.to_string(),
        branch: branch.to_string(),
        owner_session: 0,
        created_ms: 0,
    };
    assert_eq!(load_meta(None), vec![]);
    let long_path = "p".repeat(META_MAX_PATH_BYTES + 1);
    let long_branch = "b".repeat(META_MAX_BRANCH_BYTES + 1);
    let list = vec![entry("a", "x"), entry(&long_path, "x"), entry("b", &long_branch), entry("", "x")];
    let kept = load_meta(Some(list));
    assert!(kept.iter().all(|e| e.path.len() <= META_MAX_PATH_BYTES));
    assert!(kept.iter().all(|e| e.branch.len() <= META_MAX_BRANCH_BYTES));
    assert!(kept.contains(&entry("a", "x")));
    let many: Vec<MetaEntry> =
        (0..META_MAX_ENTRIES + 1).map(|i| entry(&format!("p{i}"), "x")).collect();
    assert!(load_meta(Some(many)).len() <= META_MAX_ENTRIES);
}

#[test]
fn outputs_are_stripped_and_cut() {
    assert_eq!(strip_exit_trailer("a\nb\n"), "a\nb");
    assert_eq!(truncate("short", 10), "short");
    let cut = truncate("éééé", 5);
    assert_eq!(cut, "éé…");
}

#[test]
fn a_worktree_below_the_root_directory_has_one_slash() {
    let at = |root: &str| {
        let mut mgr = WorktreeManager::new();
        let id = mgr.reserve("feat/r", "wt").unwrap();
        WorktreeManager::create(id, root, "feat/r", "wt", SessionId::new(1)).path
    };
    assert_eq!(at("/"), "/.worktrees/wt");
    assert_eq!(at("/repo/"), "/repo/.worktrees/wt");
    assert_eq!(at("/repo"), "/repo/.worktrees/wt");
}

#[test]
fn a_path_recorded_twice_moves_as_one() {
    let mut mgr = WorktreeManager::new();
    let mut records = Vec::new();
    let wt = create(&mut mgr, &mut records, "feat/t", "wt-t", 1);
    let other = create(&mut mgr, &mut records, "feat/o", "wt-o", 4);
    records.push(MetaEntry { owner_session: 2, ..records[0].clone() });
    let before = records.clone();
    WorktreeManager::transfer(&mut records, &wt, true, SessionId::new(9), 77).unwrap();
    assert_eq!(records.len(), 3);
    assert_eq!(records[0], MetaEntry { owner_session: 9, ..before[0].clone() });
    assert_eq!(records[1], before[1]);
    assert_eq!(records[2], MetaEntry { owner_session: 9, ..before[2].clone() });
    let out = listing(&[(&wt.path, "feat/t"), (&other.path, "feat/o")]);
    let (found, _) = WorktreeManager::new().discover(&out, REPO, &mut records);
    let owner = |path: &str| found.iter().find(|w| w.path == path).unwrap().owner_session;
    assert_eq!(owner(&wt.path), Some(SessionId::new(9)));
    assert_eq!(owner(&other.path), Some(SessionId::new(4)));
}

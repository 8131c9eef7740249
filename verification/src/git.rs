//! Worktrees of a repository and who owns them.
//!
//! Git knows nothing of sessions, so the owner of a worktree is recorded beside
//! the repository. A record that cannot be trusted is dropped, and a worktree
//! without a record has no owner.
use vstd::prelude::*;
use vstd::slice::slice_subrange;

use crate::error::{Error, ErrorKind};
use crate::error;
use crate::ids::{SessionId, WorktreeId};
use crate::text;

verus! {

/// A worktree.
#[derive(Debug, Clone, PartialEq, Eq)]
pub struct Worktree {
    pub id: WorktreeId,
    pub workspace_root: String,
    pub path: String,
    pub branch: String,
    /// The session that owns it, where one is recorded.
    pub owner_session: Option<SessionId>,
}

/// A [`Worktree`] by its contents.
pub struct TreeView {
    pub id: WorktreeId,
    pub workspace_root: Seq<char>,
    pub path: Seq<char>,
    pub branch: Seq<char>,
    pub owner_session: Option<SessionId>,
}

impl View for Worktree {
    type V = TreeView;

    open spec fn view(&self) -> TreeView {
        TreeView {
            id: self.id,
            workspace_root: self.workspace_root@,
            path: self.path@,
            branch: self.branch@,
            owner_session: self.owner_session,
        }
    }
}

/// What is found of a worktree.
#[derive(Debug, Clone, PartialEq, Eq)]
pub struct Validation {
    pub exists: bool,
    pub has_git_file: bool,
    pub branch: Option<String>,
    pub clean: bool,
}

/// The name of the file that the records are kept in.
pub const META_FILE: &'static str = "kilo-plus-worktrees.json";

/// How many records are kept, and how long their texts may be.
pub const META_MAX_ENTRIES: usize = 500;

pub const META_MAX_PATH_BYTES: usize = 4096;

pub const META_MAX_BRANCH_BYTES: usize = 256;

/// The record of a worktree; the owner 0 stands for none.
#[derive(Debug, Clone, PartialEq, Eq)]
pub struct MetaEntry {
    pub id: u64,
    pub path: String,
    pub branch: String,
    pub owner_session: u64,
    pub created_ms: i64,
}

/// A [`MetaEntry`] by its contents.
pub struct EntryView {
    pub id: u64,
    pub path: Seq<char>,
    pub branch: Seq<char>,
    pub owner_session: u64,
    pub created_ms: i64,
}

impl View for MetaEntry {
    type V = EntryView;

    open spec fn view(&self) -> EntryView {
        EntryView {
            id: self.id,
            path: self.path@,
            branch: self.branch@,
            owner_session: self.owner_session,
            created_ms: self.created_ms,
        }
    }
}

/// The records in `list`.
pub open spec fn entries(list: Seq<MetaEntry>) -> Seq<EntryView> {
    Seq::new(list.len(), |i: int| list[i]@)
}

/// The worktrees in `list`.
pub open spec fn trees(list: Seq<Worktree>) -> Seq<TreeView> {
    Seq::new(list.len(), |i: int| list[i]@)
}

// -------------------------------------------------------------------- names

/// A character that no branch name may hold.
pub open spec fn bad_branch_char(c: char) -> bool {
    text::is_ctl(c) || c == '~' || c == '^' || c == ':' || c == '?' || c == '*' || c == '['
        || c == '\\' || c == ' ' || c == '\t'
}

/// Some character of a branch name is one that it may not hold.
pub open spec fn holds_bad_char(s: Seq<char>) -> bool {
    exists|i: int| 0 <= i < s.len() && bad_branch_char(#[trigger] s[i])
}

/// Why a branch name is refused.
pub open spec fn branch_fault(branch: Seq<char>) -> Option<error::FaultView> {
    if text::byte_len(branch) == 0 || text::byte_len(branch) > 128 {
        Some(error::fault(ErrorKind::Malformed, "branch name empty or too long"@))
    } else if branch[0] == '-' || text::has(branch, ".."@) || branch.last() == '/'
        || holds_bad_char(branch) {
        Some(
            error::fault(
                ErrorKind::Malformed,
                "branch name "@ + text::debug_of(branch) + " rejected"@,
            ),
        )
    } else {
        None
    }
}

/// Accepts the name of a branch.
pub fn validate_branch(branch: &str) -> (r: Result<(), Error>)
    ensures
        match branch_fault(branch@) {
            None => r is Ok,
            Some(f) => r matches Err(e) && e@ == f,
        },
{
    let len: usize = text::str_len(branch);
    if len == 0 || len > 128 {
        return Err(Error::malformed("branch name empty or too long".to_owned()));
    }
    let chars: Vec<char> = text::chars_of(branch);
    proof {
        text::lemma_byte_len_bounds(branch@);
    }
    let dots: Vec<char> = text::chars_of("..");
    let mut bad: bool = chars[0] == '-' || text::contains(chars.as_slice(), dots.as_slice())
        || chars[chars.len() - 1] == '/';
    let ghost first = bad;
    let mut i: usize = 0;
    while i < chars.len()
        invariant
            i <= chars.len(),
            bad == (first || exists|j: int| 0 <= j < i && bad_branch_char(#[trigger] chars@[j])),
        decreases chars.len() - i,
    {
        let c: char = chars[i];
        if text::is_control(c) || c == '~' || c == '^' || c == ':' || c == '?' || c == '*' || c
            == '[' || c == '\\' || c == ' ' || c == '\t' {
            proof {
                assert(bad_branch_char(chars@[i as int]));
            }
            bad = true;
        }
        i = i + 1;
    }
    if bad {
        return Err(
            Error::malformed(
                text::cat3("branch name ", text::debug_str(branch).as_str(), " rejected"),
            ),
        );
    }
    Ok(())
}

/// Why the name of a worktree is refused.
pub open spec fn name_fault(name: Seq<char>) -> Option<error::FaultView> {
    if text::byte_len(name) == 0 || text::byte_len(name) > 64 {
        Some(error::fault(ErrorKind::Malformed, "worktree name empty or too long"@))
    } else if name.contains('/') || text::has(name, ".."@) || name.contains(' ') || name.contains(
        '\t',
    ) {
        Some(
            error::fault(
                ErrorKind::Malformed,
                "worktree name "@ + text::debug_of(name) + " rejected"@,
            ),
        )
    } else {
        None
    }
}

/// Accepts the name of a worktree.
pub fn validate_name(name: &str) -> (r: Result<(), Error>)
    ensures
        match name_fault(name@) {
            None => r is Ok,
            Some(f) => r matches Err(e) && e@ == f,
        },
{
    let len: usize = text::str_len(name);
    if len == 0 || len > 64 {
        return Err(Error::malformed("worktree name empty or too long".to_owned()));
    }
    let chars: Vec<char> = text::chars_of(name);
    let dots: Vec<char> = text::chars_of("..");
    proof {
        text::lemma_first_index_props(name@, '/');
        text::lemma_first_index_props(name@, ' ');
        text::lemma_first_index_props(name@, '\t');
    }
    if text::find_char(chars.as_slice(), '/') < chars.len() || text::contains(
        chars.as_slice(),
        dots.as_slice(),
    ) || text::find_char(chars.as_slice(), ' ') < chars.len() || text::find_char(
        chars.as_slice(),
        '\t',
    ) < chars.len() {
        return Err(
            Error::malformed(
                text::cat3("worktree name ", text::debug_str(name).as_str(), " rejected"),
            ),
        );
    }
    Ok(())
}

/// An accepted name is a single path component that goes nowhere else, and an
/// accepted branch is never read as an option.
pub proof fn law_accepted_names_stay_put(name: Seq<char>, branch: Seq<char>)
    requires
        name_fault(name) is None,
        branch_fault(branch) is None,
    ensures
        !name.contains('/'),
        name != ".."@,
        name.len() > 0,
        branch.len() > 0,
        branch[0] != '-',
        !text::has(branch, ".."@),
{
    if name == ".."@ {
        assert(text::at(name, 0, ".."@)) by {
            assert(name.subrange(0, ".."@.len() as int) =~= ".."@);
        }
        assert(text::has(name, ".."@));
    }
    text::lemma_byte_len_bounds(name);
    text::lemma_byte_len_bounds(branch);
}

// ------------------------------------------------------------ git's output

/// The opening words of the line that the supervisor adds.
pub open spec fn is_trailer(line: Seq<char>) -> bool {
    text::starts(line, "[exit code: "@)
}

/// The lines that git wrote.
pub open spec fn own_lines(lines: Seq<Seq<char>>) -> Seq<Seq<char>>
    decreases lines.len(),
{
    if lines.len() == 0 {
        Seq::empty()
    } else if is_trailer(lines.last()) {
        own_lines(lines.drop_last())
    } else {
        own_lines(lines.drop_last()).push(lines.last())
    }
}

/// What git wrote: its output without the lines that the supervisor adds.
pub fn strip_exit_trailer(s: &str) -> (r: String)
    ensures
        r@ == text::join(own_lines(text::lines_of(s@)), seq!['\n']),
{
    let chars: Vec<char> = text::chars_of(s);
    let lines: Vec<&[char]> = text::split_lines(chars.as_slice());
    let ghost all = text::views(lines@);
    let mut kept: Vec<&[char]> = Vec::new();
    let mut i: usize = 0;
    proof {
        assert(all.take(0) =~= Seq::<Seq<char>>::empty());
        assert(text::views(kept@) =~= Seq::<Seq<char>>::empty());
    }
    while i < lines.len()
        invariant
            i <= lines.len(),
            all == text::views(lines@),
            text::views(kept@) == own_lines(all.take(i as int)),
        decreases lines.len() - i,
    {
        let ghost before = text::views(kept@);
        proof {
            assert(all.take(i as int + 1).drop_last() =~= all.take(i as int));
            assert(all.take(i as int + 1).last() == lines@[i as int]@);
        }
        if !text::starts_with(lines[i], "[exit code: ") {
            kept.push(lines[i]);
            proof {
                assert(text::views(kept@) =~= before.push(lines@[i as int]@));
            }
        }
        i = i + 1;
    }
    proof {
        assert(all.take(i as int) =~= all);
    }
    let joined: Vec<char> = text::join_char(&kept, '\n');
    text::string_of(joined.as_slice())
}

/// At most `max` bytes of a text, in whole characters, and an ellipsis where
/// there was more.
pub open spec fn truncated(s: Seq<char>, max: nat) -> Seq<char> {
    if text::byte_len(s) <= max {
        s
    } else {
        text::cap_to(s, max as int) + seq!['\u{2026}']
    }
}

/// At most `max` bytes of a text, and an ellipsis where there was more.
pub fn truncate(s: &str, max: usize) -> (r: String)
    ensures
        r@ == truncated(s@, max as nat),
{
    if text::str_len(s) <= max {
        return s.to_owned();
    }
    let chars: Vec<char> = text::chars_of(s);
    let n: usize = text::fit_chars(chars.as_slice(), max);
    let head: &[char] = slice_subrange(chars.as_slice(), 0, n);
    proof {
        assert(head@ =~= text::cap_to(s@, max as int));
    }
    let mut out: String = text::string_of(head);
    text::push_one(&mut out, '\u{2026}');
    out
}

/// What a call of git comes to: what it wrote, or the error with what it was
/// called with, its exit code and the head of what it wrote.
pub open spec fn git_outcome(
    args: Seq<Seq<char>>,
    exit_code: Option<i32>,
    excerpt: Seq<char>,
) -> Result<Seq<char>, error::FaultView> {
    if exit_code == Some(0i32) {
        Ok(text::join(own_lines(text::lines_of(excerpt)), seq!['\n']))
    } else {
        let code = match exit_code {
            Some(c) => c as int,
            None => -1,
        };
        Err(
            error::fault(
                ErrorKind::Internal,
                "git "@ + text::join(args, seq![' ']) + " failed ("@ + text::signed_decimal(code)
                    + "): "@ + truncated(excerpt, 2000),
            ),
        )
    }
}

fn join_args(args: &Vec<String>) -> (r: String)
    ensures
        r@ == text::join(text::strings(args@), seq![' ']),
{
    let mut out: String = String::new();
    let ghost all = text::strings(args@);
    let mut i: usize = 0;
    proof {
        assert(all.take(0) =~= Seq::<Seq<char>>::empty());
        assert(out@ =~= text::join(all.take(0), seq![' ']));
    }
    while i < args.len()
        invariant
            i <= args.len(),
            all == text::strings(args@),
            out@ == text::join(all.take(i as int), seq![' ']),
        decreases args.len() - i,
    {
        proof {
            assert(all.take(i as int + 1).drop_last() =~= all.take(i as int));
            assert(all.take(i as int + 1).last() == args@[i as int]@);
        }
        if i > 0 {
            text::push_one(&mut out, ' ');
        }
        out.append(args[i].as_str());
        proof {
            if i == 0 {
                assert(out@ =~= args@[0]@);
                assert(text::join(all.take(1), seq![' ']) =~= args@[0]@);
            }
        }
        i = i + 1;
    }
    proof {
        assert(all.take(i as int) =~= all);
    }
    out
}

/// Accepts the repository of a call of git: a directory.
pub fn check_repository(repo: &str, is_dir: bool) -> (r: Result<(), Error>)
    ensures
        r is Ok <==> is_dir,
        r matches Err(e) ==> e@ == error::fault(
            ErrorKind::NotFound,
            "repository "@ + repo@ + " not found"@,
        ),
{
    if !is_dir {
        return Err(Error::not_found(text::cat3("repository ", repo, " not found")));
    }
    Ok(())
}

/// What a call of git comes to.
pub fn git_result(args: &Vec<String>, exit_code: Option<i32>, excerpt: &str) -> (r: Result<
    String,
    Error,
>)
    ensures
        match git_outcome(text::strings(args@), exit_code, excerpt@) {
            Ok(s) => r matches Ok(t) && t@ == s,
            Err(f) => r matches Err(e) && e@ == f,
        },
{
    let code: i32 = match exit_code {
        Some(c) => c,
        None => -1,
    };
    if let Some(c) = exit_code {
        if c == 0 {
            return Ok(strip_exit_trailer(excerpt));
        }
    }
    let mut m: String = text::cat3("git ", join_args(args).as_str(), " failed (");
    text::push_signed(&mut m, code as i64);
    m.append("): ");
    m.append(truncate(excerpt, 2000).as_str());
    Err(Error::new(ErrorKind::Internal, m))
}

// ------------------------------------------------------------------ records

/// A record that can be trusted: its texts are within their bounds.
pub open spec fn sane(e: EntryView) -> bool {
    0 < text::byte_len(e.path) <= META_MAX_PATH_BYTES && text::byte_len(e.branch)
        <= META_MAX_BRANCH_BYTES
}

/// The records that can be trusted.
pub open spec fn sane_entries(list: Seq<EntryView>) -> Seq<EntryView>
    decreases list.len(),
{
    if list.len() == 0 {
        Seq::empty()
    } else if sane(list.last()) {
        sane_entries(list.drop_last()).push(list.last())
    } else {
        sane_entries(list.drop_last())
    }
}

/// What is taken over from the file of records: what can be trusted of it, or
/// nothing where it is not readable or holds too much.
pub open spec fn loaded(list: Option<Seq<EntryView>>) -> Seq<EntryView> {
    match list {
        None => Seq::empty(),
        Some(list) => if list.len() > META_MAX_ENTRIES {
            Seq::empty()
        } else {
            sane_entries(list)
        },
    }
}

/// What is taken over from the file of records, which reads as `parsed`.
pub fn load_meta(parsed: Option<Vec<MetaEntry>>) -> (r: Vec<MetaEntry>)
    ensures
        entries(r@) == loaded(
            match parsed {
                Some(list) => Some(entries(list@)),
                None => None,
            },
        ),
{
    let mut out: Vec<MetaEntry> = Vec::new();
    proof {
        assert(entries(out@) =~= Seq::<EntryView>::empty());
    }
    let list: Vec<MetaEntry> = match parsed {
        None => {
            return out;
        },
        Some(list) => list,
    };
    if list.len() > META_MAX_ENTRIES {
        return out;
    }
    let ghost all = entries(list@);
    let mut i: usize = 0;
    proof {
        assert(all.take(0) =~= Seq::<EntryView>::empty());
    }
    while i < list.len()
        invariant
            i <= list.len(),
            all == entries(list@),
            entries(out@) == sane_entries(all.take(i as int)),
        decreases list.len() - i,
    {
        let ghost before = entries(out@);
        proof {
            assert(all.take(i as int + 1).drop_last() =~= all.take(i as int));
            assert(all.take(i as int + 1).last() == list@[i as int]@);
        }
        let path_len: usize = text::str_len(list[i].path.as_str());
        let branch_len: usize = text::str_len(list[i].branch.as_str());
        if path_len > 0 && path_len <= META_MAX_PATH_BYTES && branch_len <= META_MAX_BRANCH_BYTES {
            out.push(list[i].duplicate());
            proof {
                assert(entries(out@) =~= before.push(list@[i as int]@));
            }
        }
        i = i + 1;
    }
    proof {
        assert(all.take(i as int) =~= all);
    }
    out
}

/// The number that stands for an owner.
pub open spec fn owner_number(owner: Option<SessionId>) -> u64 {
    match owner {
        Some(s) => s.0,
        None => 0,
    }
}

/// The owner that a number stands for.
pub open spec fn owner_of(number: u64) -> Option<SessionId> {
    if number == 0 {
        None
    } else {
        Some(SessionId(number))
    }
}

/// The record of a worktree.
pub open spec fn entry_of(wt: TreeView, created_ms: i64) -> EntryView {
    EntryView {
        id: wt.id.0,
        path: wt.path,
        branch: wt.branch,
        owner_session: owner_number(wt.owner_session),
        created_ms,
    }
}

impl MetaEntry {
    /// The same record once more.
    pub fn duplicate(&self) -> (r: Self)
        ensures
            r@ == self@,
    {
        MetaEntry {
            id: self.id,
            path: self.path.as_str().to_owned(),
            branch: self.branch.as_str().to_owned(),
            owner_session: self.owner_session,
            created_ms: self.created_ms,
        }
    }

    /// The record of a worktree.
    pub fn of(wt: &Worktree, created_ms: i64) -> (r: Self)
        ensures
            r@ == entry_of(wt@, created_ms),
    {
        let owner: u64 = match wt.owner_session {
            Some(s) => s.0,
            None => 0,
        };
        MetaEntry {
            id: wt.id.0,
            path: wt.path.as_str().to_owned(),
            branch: wt.branch.as_str().to_owned(),
            owner_session: owner,
            created_ms,
        }
    }
}

/// The record of a path: the last one.
pub open spec fn recorded(list: Seq<EntryView>, path: Seq<char>) -> Option<EntryView>
    decreases list.len(),
{
    if list.len() == 0 {
        None
    } else if list.last().path == path {
        Some(list.last())
    } else {
        recorded(list.drop_last(), path)
    }
}

fn find_record(list: &Vec<MetaEntry>, path: &String) -> (r: Option<usize>)
    ensures
        match r {
            Some(i) => i < list@.len() && recorded(entries(list@), path@) == Some(
                entries(list@)[i as int],
            ),
            None => recorded(entries(list@), path@) is None,
        },
{
    let ghost all = entries(list@);
    let mut i: usize = list.len();
    proof {
        assert(all.take(i as int) =~= all);
    }
    while i > 0
        invariant
            i <= list.len(),
            all == entries(list@),
            recorded(all, path@) == recorded(all.take(i as int), path@),
        decreases i,
    {
        proof {
            assert(all.take(i as int).drop_last() =~= all.take(i as int - 1));
            assert(all.take(i as int).last() == all[i as int - 1]);
        }
        i = i - 1;
        if list[i].path == *path {
            return Some(i);
        }
    }
    None
}

// ---------------------------------------------------------------- discovery

/// A line of git's list that names a worktree.
pub open spec fn names_tree(line: Seq<char>) -> bool {
    text::starts(line, "worktree "@)
}

/// A line of git's list that names the branch of the worktree before it.
pub open spec fn names_branch(line: Seq<char>) -> bool {
    text::starts(line, "branch refs/heads/"@)
}

/// The paths and branches of the worktrees in git's list.
pub open spec fn listed(lines: Seq<Seq<char>>) -> Seq<(Seq<char>, Seq<char>)>
    decreases lines.len(),
{
    if lines.len() == 0 {
        Seq::empty()
    } else {
        let before = listed(lines.drop_last());
        let line = lines.last();
        if names_tree(line) {
            before.push((text::trim(line.skip("worktree "@.len() as int)), Seq::empty()))
        } else if names_branch(line) && before.len() > 0 {
            before.drop_last().push(
                (
                    before.last().0,
                    text::trim(line.skip("branch refs/heads/"@.len() as int)),
                ),
            )
        } else {
            before
        }
    }
}

/// The number behind `n`; behind the largest one comes 0.
pub open spec fn number_after(n: u64) -> u64 {
    if n == u64::MAX {
        0
    } else {
        (n + 1) as u64
    }
}

/// The worktrees of git's list, with the ids and owners that are recorded, and the
/// next free id. A worktree without a record gets a new id and no owner.
pub open spec fn discovered(
    found: Seq<(Seq<char>, Seq<char>)>,
    root: Seq<char>,
    records: Seq<EntryView>,
    next_id: u64,
) -> (Seq<TreeView>, u64)
    decreases found.len(),
{
    if found.len() == 0 {
        (Seq::empty(), next_id)
    } else {
        let (before, id) = discovered(found.drop_last(), root, records, next_id);
        let (path, branch) = found.last();
        match recorded(records, path) {
            Some(e) => (
                before.push(
                    TreeView {
                        id: WorktreeId(e.id),
                        workspace_root: root,
                        path,
                        branch,
                        owner_session: owner_of(e.owner_session),
                    },
                ),
                id,
            ),
            None => (
                before.push(
                    TreeView {
                        id: WorktreeId(id),
                        workspace_root: root,
                        path,
                        branch,
                        owner_session: None,
                    },
                ),
                number_after(id),
            ),
        }
    }
}

/// The records with one more for each worktree that had none.
pub open spec fn with_new(found: Seq<TreeView>, records: Seq<EntryView>) -> Seq<EntryView>
    decreases found.len(),
{
    if found.len() == 0 {
        records
    } else {
        let before = with_new(found.drop_last(), records);
        let wt = found.last();
        if recorded(records, wt.path) is Some {
            before
        } else {
            before.push(
                EntryView {
                    id: wt.id.0,
                    path: wt.path,
                    branch: wt.branch,
                    owner_session: 0,
                    created_ms: 0,
                },
            )
        }
    }
}

/// The pairs in `list`.
pub open spec fn found_pairs(list: Seq<(String, String)>) -> Seq<(Seq<char>, Seq<char>)> {
    Seq::new(list.len(), |i: int| (list[i].0@, list[i].1@))
}

/// The text behind the first `n` characters, trimmed.
fn behind(line: &[char], n: usize) -> (r: String)
    requires
        n <= line@.len(),
    ensures
        r@ == text::trim(line@.skip(n as int)),
{
    let rest: &[char] = slice_subrange(line, n, line.len());
    proof {
        assert(rest@ =~= line@.skip(n as int));
    }
    text::string_of(text::trimmed(rest))
}

fn list_worktrees(out: &str) -> (r: Vec<(String, String)>)
    ensures
        found_pairs(r@) == listed(text::lines_of(out@)),
{
    let chars: Vec<char> = text::chars_of(out);
    let lines: Vec<&[char]> = text::split_lines(chars.as_slice());
    let ghost all = text::views(lines@);
    let mut found: Vec<(String, String)> = Vec::new();
    let mut i: usize = 0;
    proof {
        reveal_strlit("worktree ");
        reveal_strlit("branch refs/heads/");
        assert(all.take(0) =~= Seq::<Seq<char>>::empty());
        assert(found_pairs(found@) =~= Seq::<(Seq<char>, Seq<char>)>::empty());
    }
    while i < lines.len()
        invariant
            i <= lines.len(),
            all == text::views(lines@),
            "worktree "@.len() == 9,
            "branch refs/heads/"@.len() == 18,
            found_pairs(found@) == listed(all.take(i as int)),
        decreases lines.len() - i,
    {
        let line: &[char] = lines[i];
        let ghost before = found_pairs(found@);
        proof {
            assert(all.take(i as int + 1).drop_last() =~= all.take(i as int));
            assert(all.take(i as int + 1).last() == line@);
        }
        if text::starts_with(line, "worktree ") {
            let path: String = behind(line, 9);
            let none: String = String::new();
            proof {
                assert(none@ =~= Seq::<char>::empty());
            }
            let ghost p = (path@, none@);
            found.push((path, none));
            proof {
                assert(found_pairs(found@) =~= before.push(p));
            }
        } else if text::starts_with(line, "branch refs/heads/") {
            let ghost kept = found@;
            match found.pop() {
                None => {},
                Some(last) => {
                    let branch: String = behind(line, 18);
                    let ghost p = (last.0@, branch@);
                    proof {
                        assert(last == kept.last());
                        assert(before.last() == (last.0@, last.1@));
                    }
                    found.push((last.0, branch));
                    proof {
                        assert(found_pairs(found@) =~= before.drop_last().push(p));
                    }
                },
            }
        }
        i = i + 1;
    }
    proof {
        assert(all.take(i as int) =~= all);
    }
    found
}

/// Hands out the ids of worktrees.
#[derive(Debug, Clone, PartialEq, Eq)]
pub struct WorktreeManager {
    next_id: u64,
}

impl View for WorktreeManager {
    type V = u64;

    /// The next free id.
    closed spec fn view(&self) -> u64 {
        self.next_id
    }
}

/// The relative path `rel` below `root`: with a slash between them, unless `root`
/// ends in one or is empty.
pub open spec fn below(root: Seq<char>, rel: Seq<char>) -> Seq<char> {
    if root.len() == 0 || root.last() == '/' {
        root + rel
    } else {
        root + "/"@ + rel
    }
}

fn path_below(root: &str, rel: &str) -> (r: String)
    ensures
        r@ == below(root@, rel@),
{
    let chars: Vec<char> = text::chars_of(root);
    if chars.len() == 0 || chars[chars.len() - 1] == '/' {
        text::cat2(root, rel)
    } else {
        text::cat3(root, "/", rel)
    }
}

impl WorktreeManager {
    /// The first id is 1.
    pub fn new() -> (r: Self)
        ensures
            r@ == 1,
    {
        WorktreeManager { next_id: 1 }
    }

    fn fresh_id(&mut self) -> (r: u64)
        ensures
            r == old(self)@,
            final(self)@ == number_after(old(self)@),
    {
        let id: u64 = self.next_id;
        self.next_id = if id == u64::MAX {
            0
        } else {
            id + 1
        };
        id
    }

    /// Accepts a new worktree by its names, and gives it an id.
    pub fn reserve(&mut self, branch: &str, name: &str) -> (r: Result<WorktreeId, Error>)
        ensures
            match (branch_fault(branch@), name_fault(name@)) {
                (Some(f), _) => (r matches Err(e) && e@ == f) && final(self)@ == old(self)@,
                (None, Some(f)) => (r matches Err(e) && e@ == f) && final(self)@ == old(self)@,
                (None, None) => {
                    &&& final(self)@ == number_after(old(self)@)
                    &&& if old(self)@ == 0 {
                        r matches Err(e) && e@ == error::fault(
                            ErrorKind::Internal,
                            "worktree id overflow"@,
                        )
                    } else {
                        r == Ok::<WorktreeId, Error>(WorktreeId(old(self)@))
                    }
                },
            },
    {
        match validate_branch(branch) {
            Err(e) => {
                return Err(e);
            },
            Ok(_) => {},
        }
        match validate_name(name) {
            Err(e) => {
                return Err(e);
            },
            Ok(_) => {},
        }
        let id: u64 = self.fresh_id();
        if id == 0 {
            return Err(Error::internal("worktree id overflow".to_owned()));
        }
        Ok(WorktreeId::new(id))
    }

    /// The worktree `name` of a repository at its canonical `root`, for its
    /// owner.
    pub fn create(id: WorktreeId, root: &str, branch: &str, name: &str, owner: SessionId) -> (r:
        Worktree)
        ensures
            r@ == (TreeView {
                id,
                workspace_root: root@,
                path: below(root@, ".worktrees/"@ + name@),
                branch: branch@,
                owner_session: Some(owner),
            }),
    {
        Worktree {
            id,
            workspace_root: root.to_owned(),
            path: path_below(root, text::cat2(".worktrees/", name).as_str()),
            branch: branch.to_owned(),
            owner_session: Some(owner),
        }
    }

    /// Finds the worktrees in git's list `out`, with their ids and owners from the
    /// records, and records those that were not recorded. The second part says
    /// whether there were any such.
    pub fn discover(&mut self, out: &str, root: &str, records: &mut Vec<MetaEntry>) -> (r: (
        Vec<Worktree>,
        bool,
    ))
        ensures
            ({
                let d = discovered(
                    listed(text::lines_of(out@)),
                    root@,
                    entries(old(records)@),
                    old(self)@,
                );
                &&& trees(r.0@) == d.0
                &&& final(self)@ == d.1
                &&& entries(final(records)@) == with_new(d.0, entries(old(records)@))
                &&& r.1 == (final(records)@.len() > old(records)@.len())
            }),
    {
        let found: Vec<(String, String)> = list_worktrees(out);
        let ghost all = found_pairs(found@);
        let ghost base = entries(records@);
        let ghost first = self@;
        let mut list: Vec<Worktree> = Vec::new();
        let mut fresh: Vec<MetaEntry> = Vec::new();
        let mut i: usize = 0;
        proof {
            assert(all.take(0) =~= Seq::<(Seq<char>, Seq<char>)>::empty());
            assert(trees(list@) =~= Seq::<TreeView>::empty());
            assert(base + entries(fresh@) =~= base);
        }
        while i < found.len()
            invariant
                i <= found.len(),
                all == found_pairs(found@),
                base == entries(records@),
                records@ == old(records)@,
                (trees(list@), self@) == discovered(all.take(i as int), root@, base, first),
                base + entries(fresh@) == with_new(trees(list@), base),
            decreases found.len() - i,
        {
            let ghost before = trees(list@);
            let ghost newer = entries(fresh@);
            let path: String = found[i].0.as_str().to_owned();
            let branch: String = found[i].1.as_str().to_owned();
            proof {
                assert(all.take(i as int + 1).drop_last() =~= all.take(i as int));
                assert(all.take(i as int + 1).last() == (path@, branch@));
            }
            let wt: Worktree = match find_record(records, &path) {
                Some(k) => {
                    proof {
                        assert(entries(records@)[k as int] == records@[k as int]@);
                    }
                    let owner: Option<SessionId> = if records[k].owner_session == 0 {
                        None
                    } else {
                        Some(SessionId::new(records[k].owner_session))
                    };
                    Worktree {
                        id: WorktreeId::new(records[k].id),
                        workspace_root: root.to_owned(),
                        path,
                        branch,
                        owner_session: owner,
                    }
                },
                None => {
                    let id: u64 = self.fresh_id();
                    let entry: MetaEntry = MetaEntry {
                        id,
                        path: path.as_str().to_owned(),
                        branch: branch.as_str().to_owned(),
                        owner_session: 0,
                        created_ms: 0,
                    };
                    fresh.push(entry);
                    proof {
                        assert(entries(fresh@) =~= newer.push(entry@));
                    }
                    Worktree {
                        id: WorktreeId::new(id),
                        workspace_root: root.to_owned(),
                        path,
                        branch,
                        owner_session: None,
                    }
                },
            };
            list.push(wt);
            proof {
                assert(trees(list@) =~= before.push(wt@));
                assert(trees(list@).drop_last() =~= before);
                if recorded(base, wt@.path) is None {
                    assert(base + newer.push(entries(fresh@).last()) =~= (base + newer).push(
                        entries(fresh@).last(),
                    ));
                    assert(entries(fresh@) =~= newer.push(entries(fresh@).last()));
                }
            }
            i = i + 1;
        }
        let saw_new: bool = fresh.len() > 0;
        proof {
            assert(all.take(i as int) =~= all);
        }
        let ghost extra = entries(fresh@);
        records.append(&mut fresh);
        proof {
            assert(entries(records@) =~= base + extra);
        }
        (list, saw_new)
    }

    /// What is found of a worktree. The texts are what git says of its branch and
    /// of its state, where it says anything.
    pub fn validate(exists: bool, git_file: bool, branch: Option<String>, status: Option<String>)
        -> (r: Validation)
        ensures
            r.exists == exists,
            r.has_git_file == (exists && git_file),
            match (r.branch, branch) {
                (Some(b), Some(said)) => r.has_git_file && b@ == text::trim(said@),
                (None, None) => true,
                (None, Some(_)) => !r.has_git_file,
                (Some(_), None) => false,
            },
            r.clean == (r.has_git_file && (status matches Some(said) && text::trim(said@).len()
                == 0)),
    {
        let has_git_file: bool = exists && git_file;
        if !has_git_file {
            return Validation { exists, has_git_file, branch: None, clean: false };
        }
        let branch: Option<String> = match branch {
            None => None,
            Some(said) => {
                let chars: Vec<char> = text::chars_of(said.as_str());
                Some(text::string_of(text::trimmed(chars.as_slice())))
            },
        };
        let clean: bool = match status {
            None => false,
            Some(said) => {
                let chars: Vec<char> = text::chars_of(said.as_str());
                text::trimmed(chars.as_slice()).len() == 0
            },
        };
        Validation { exists, has_git_file, branch, clean }
    }

    /// The records without those of a worktree that was removed.
    pub fn remove(records: &Vec<MetaEntry>, path: &String) -> (r: Vec<MetaEntry>)
        ensures
            entries(r@) == without(entries(records@), path@),
    {
        let ghost all = entries(records@);
        let mut out: Vec<MetaEntry> = Vec::new();
        let mut i: usize = 0;
        proof {
            assert(all.take(0) =~= Seq::<EntryView>::empty());
            assert(entries(out@) =~= Seq::<EntryView>::empty());
        }
        while i < records.len()
            invariant
                i <= records.len(),
                all == entries(records@),
                entries(out@) == without(all.take(i as int), path@),
            decreases records.len() - i,
        {
            let ghost before = entries(out@);
            proof {
                assert(all.take(i as int + 1).drop_last() =~= all.take(i as int));
                assert(all.take(i as int + 1).last() == records@[i as int]@);
            }
            if records[i].path != *path {
                out.push(records[i].duplicate());
                proof {
                    assert(entries(out@) =~= before.push(records@[i as int]@));
                }
            }
            i = i + 1;
        }
        proof {
            assert(all.take(i as int) =~= all);
        }
        out
    }

    /// Moves a worktree to another owner: in every record of its path, or in a
    /// new one where it has none. A worktree that is not there cannot be moved.
    pub fn transfer(
        records: &mut Vec<MetaEntry>,
        wt: &Worktree,
        is_dir: bool,
        new_owner: SessionId,
        now_ms: i64,
    ) -> (r: Result<(), Error>)
        ensures
            !is_dir ==> final(records)@ == old(records)@ && (r matches Err(e) && e@ == error::fault(
                ErrorKind::NotFound,
                "worktree "@ + wt.path@ + " missing"@,
            )),
            is_dir ==> r is Ok && entries(final(records)@) == moved(
                entries(old(records)@),
                wt@,
                new_owner,
                now_ms,
            ),
    {
        if !is_dir {
            return Err(
                Error::not_found(text::cat3("worktree ", wt.path.as_str(), " missing")),
            );
        }
        let ghost all = entries(records@);
        let mut found: bool = false;
        let mut i: usize = 0;
        proof {
            assert(owned(all, wt.path@, new_owner).take(0) + all.skip(0) =~= all);
        }
        while i < records.len()
            invariant
                i <= records.len(),
                records@.len() == all.len(),
                entries(records@) == owned(all, wt.path@, new_owner).take(i as int) + all.skip(
                    i as int,
                ),
                found == (recorded(all.take(i as int), wt.path@) is Some),
            decreases records.len() - i,
        {
            let ghost done = owned(all, wt.path@, new_owner);
            let ghost before = records@;
            proof {
                assert(entries(before)[i as int] == all[i as int]);
                assert(all.take(i as int + 1).drop_last() =~= all.take(i as int));
                assert(all.take(i as int + 1).last() == all[i as int]);
            }
            if records[i].path == wt.path {
                let changed: MetaEntry = MetaEntry {
                    id: records[i].id,
                    path: records[i].path.as_str().to_owned(),
                    branch: records[i].branch.as_str().to_owned(),
                    owner_session: new_owner.0,
                    created_ms: records[i].created_ms,
                };
                records.set(i, changed);
                found = true;
                proof {
                    assert(entries(records@) =~= entries(before).update(i as int, changed@));
                }
            }
            proof {
                assert(entries(records@)[i as int] == done[i as int]);
                assert(entries(records@) =~= done.take(i as int + 1) + all.skip(i as int + 1));
            }
            i = i + 1;
        }
        proof {
            assert(all.take(i as int) =~= all);
            assert(entries(records@) =~= owned(all, wt.path@, new_owner));
        }
        if !found {
            let entry: MetaEntry = MetaEntry {
                id: wt.id.0,
                path: wt.path.as_str().to_owned(),
                branch: wt.branch.as_str().to_owned(),
                owner_session: new_owner.0,
                created_ms: now_ms,
            };
            let ghost before = records@;
            records.push(entry);
            proof {
                lemma_owned(all, wt.path@, new_owner);
                assert(entries(records@) =~= entries(before).push(entry@));
            }
        }
        Ok(())
    }

    /// The records of the worktrees that are still there, and the paths of the
    /// others. `present` says of each record whether its directory is there.
    pub fn repair(records: &Vec<MetaEntry>, present: &Vec<bool>) -> (r: (
        Vec<MetaEntry>,
        Vec<String>,
    ))
        requires
            records@.len() == present@.len(),
        ensures
            entries(r.0@) == kept(entries(records@), present@),
            text::strings(r.1@) == vanished(entries(records@), present@),
    {
        let ghost all = entries(records@);
        let mut out: Vec<MetaEntry> = Vec::new();
        let mut gone: Vec<String> = Vec::new();
        let mut i: usize = 0;
        proof {
            assert(all.take(0) =~= Seq::<EntryView>::empty());
            assert(present@.take(0) =~= Seq::<bool>::empty());
            assert(entries(out@) =~= Seq::<EntryView>::empty());
            assert(text::strings(gone@) =~= Seq::<Seq<char>>::empty());
        }
        while i < records.len()
            invariant
                i <= records.len(),
                records@.len() == present@.len(),
                all == entries(records@),
                entries(out@) == kept(all.take(i as int), present@.take(i as int)),
                text::strings(gone@) == vanished(all.take(i as int), present@.take(i as int)),
            decreases records.len() - i,
        {
            let ghost before = entries(out@);
            let ghost lost = text::strings(gone@);
            proof {
                assert(all.take(i as int + 1).drop_last() =~= all.take(i as int));
                assert(present@.take(i as int + 1).drop_last() =~= present@.take(i as int));
                assert(all.take(i as int + 1).last() == records@[i as int]@);
                assert(present@.take(i as int + 1).last() == present@[i as int]);
            }
            if present[i] {
                out.push(records[i].duplicate());
                proof {
                    assert(entries(out@) =~= before.push(records@[i as int]@));
                }
            } else {
                gone.push(records[i].path.as_str().to_owned());
                proof {
                    assert(text::strings(gone@) =~= lost.push(records@[i as int]@.path));
                }
            }
            i = i + 1;
        }
        proof {
            assert(all.take(i as int) =~= all);
            assert(present@.take(i as int) =~= present@);
        }
        (out, gone)
    }
}

/// The records of other paths.
pub open spec fn without(list: Seq<EntryView>, path: Seq<char>) -> Seq<EntryView>
    decreases list.len(),
{
    if list.len() == 0 {
        Seq::empty()
    } else if list.last().path == path {
        without(list.drop_last(), path)
    } else {
        without(list.drop_last(), path).push(list.last())
    }
}

/// The records, with every one of the path under the new owner.
pub open spec fn owned(list: Seq<EntryView>, path: Seq<char>, new_owner: SessionId) -> Seq<EntryView> {
    Seq::new(
        list.len(),
        |i: int|
            if list[i].path == path {
                EntryView { owner_session: new_owner.0, ..list[i] }
            } else {
                list[i]
            },
    )
}

/// The records after a worktree was moved to another owner.
pub open spec fn moved(
    list: Seq<EntryView>,
    wt: TreeView,
    new_owner: SessionId,
    now_ms: i64,
) -> Seq<EntryView> {
    if recorded(list, wt.path) is Some {
        owned(list, wt.path, new_owner)
    } else {
        list.push(
            EntryView {
                id: wt.id.0,
                path: wt.path,
                branch: wt.branch,
                owner_session: new_owner.0,
                created_ms: now_ms,
            },
        )
    }
}

/// The records whose directories are there.
pub open spec fn kept(list: Seq<EntryView>, present: Seq<bool>) -> Seq<EntryView>
    decreases list.len(),
{
    if list.len() == 0 {
        Seq::empty()
    } else if present.last() {
        kept(list.drop_last(), present.drop_last()).push(list.last())
    } else {
        kept(list.drop_last(), present.drop_last())
    }
}

/// The paths of the records whose directories are not there.
pub open spec fn vanished(list: Seq<EntryView>, present: Seq<bool>) -> Seq<Seq<char>>
    decreases list.len(),
{
    if list.len() == 0 {
        Seq::empty()
    } else if present.last() {
        vanished(list.drop_last(), present.drop_last())
    } else {
        vanished(list.drop_last(), present.drop_last()).push(list.last().path)
    }
}

/// What is recorded of a path once its records are under the new owner.
proof fn lemma_owned(list: Seq<EntryView>, path: Seq<char>, new_owner: SessionId)
    ensures
        match recorded(list, path) {
            Some(e) => recorded(owned(list, path, new_owner), path) == Some(
                (EntryView { owner_session: new_owner.0, ..e }),
            ),
            None => owned(list, path, new_owner) == list,
        },
    decreases list.len(),
{
    if list.len() == 0 {
        assert(owned(list, path, new_owner) =~= list);
    } else {
        let d = list.drop_last();
        lemma_owned(d, path, new_owner);
        assert(owned(list, path, new_owner).drop_last() =~= owned(d, path, new_owner));
        if recorded(list, path) is None {
            assert(owned(list, path, new_owner) =~= owned(d, path, new_owner).push(list.last()));
            assert(d.push(list.last()) =~= list);
        }
    }
}

// --------------------------------------------------------------------- laws

/// A discovered worktree has the id and owner of its record; one without a
/// record has no owner, whatever else was found.
pub proof fn law_owners_are_never_invented(
    found: Seq<(Seq<char>, Seq<char>)>,
    root: Seq<char>,
    records: Seq<EntryView>,
    next_id: u64,
    i: int,
)
    requires
        0 <= i < found.len(),
    ensures
        ({
            let list = discovered(found, root, records, next_id).0;
            &&& list.len() == found.len()
            &&& list[i].path == found[i].0
            &&& list[i].branch == found[i].1
            &&& match recorded(records, found[i].0) {
                Some(e) => list[i].id == WorktreeId(e.id) && list[i].owner_session == owner_of(
                    e.owner_session,
                ),
                None => list[i].owner_session is None,
            }
        }),
    decreases found.len(),
{
    let rest = found.drop_last();
    lemma_discovered_len(rest, root, records, next_id);
    if i < rest.len() {
        law_owners_are_never_invented(rest, root, records, next_id, i);
        assert(rest[i] == found[i]);
    }
}

/// A worktree that was removed is no longer recorded, and every other one is
/// recorded as before.
pub proof fn law_removed_worktrees_are_forgotten(
    records: Seq<EntryView>,
    path: Seq<char>,
    other: Seq<char>,
)
    ensures
        recorded(without(records, path), path) is None,
        other != path ==> recorded(without(records, path), other) == recorded(records, other),
    decreases records.len(),
{
    if records.len() > 0 {
        law_removed_worktrees_are_forgotten(records.drop_last(), path, other);
        let w = without(records.drop_last(), path);
        assert(w.push(records.last()).drop_last() =~= w);
    }
}

/// After a move, a later discovery finds the worktree with its new owner, however
/// often it was recorded before, if at all; every record of its path is under the
/// new owner, and nothing else in the records changes.
pub proof fn law_a_move_is_durable(
    records: Seq<EntryView>,
    wt: TreeView,
    new_owner: SessionId,
    now_ms: i64,
)
    ensures
        ({
            let after = moved(records, wt, new_owner, now_ms);
            let e = recorded(after, wt.path);
            &&& e is Some
            &&& e->0.owner_session == new_owner.0
            &&& new_owner.0 != 0 ==> owner_of(e->0.owner_session) == Some(new_owner)
            &&& after.len() == records.len() + if recorded(records, wt.path) is Some {
                0nat
            } else {
                1nat
            }
            &&& forall|i: int|
                0 <= i < records.len() ==> #[trigger] after[i] == (EntryView {
                    owner_session: if records[i].path == wt.path {
                        new_owner.0
                    } else {
                        records[i].owner_session
                    },
                    ..records[i]
                })
        }),
{
    lemma_owned(records, wt.path, new_owner);
    if recorded(records, wt.path) is None {
        let after = moved(records, wt, new_owner, now_ms);
        assert forall|i: int| 0 <= i < records.len() implies #[trigger] after[i] == (EntryView {
            owner_session: if records[i].path == wt.path {
                new_owner.0
            } else {
                records[i].owner_session
            },
            ..records[i]
        }) by {
            assert(owned(records, wt.path, new_owner)[i] == records[i]);
        }
    }
}

/// A new worktree, once recorded, is discovered with the id and the owner that it
/// was created with.
pub proof fn law_created_worktrees_are_found(records: Seq<EntryView>, wt: TreeView, created_ms: i64)
    requires
        owner_number(wt.owner_session) != 0,
    ensures
        ({
            let e = recorded(records.push(entry_of(wt, created_ms)), wt.path);
            e is Some && WorktreeId(e->0.id) == wt.id && owner_of(e->0.owner_session)
                == wt.owner_session
        }),
{
}

/// The paths are all different.
pub open spec fn distinct_paths(found: Seq<(Seq<char>, Seq<char>)>) -> bool {
    forall|i: int, j: int|
        0 <= i < j < found.len() ==> (#[trigger] found[i]).0 != (#[trigger] found[j]).0
}

/// What is recorded of a path once the discovered worktrees are recorded.
proof fn lemma_with_new(found: Seq<TreeView>, records: Seq<EntryView>, path: Seq<char>)
    requires
        forall|i: int, j: int|
            0 <= i < j < found.len() ==> (#[trigger] found[i]).path != (#[trigger] found[j]).path,
    ensures
        recorded(records, path) is Some ==> recorded(with_new(found, records), path) == recorded(
            records,
            path,
        ),
        recorded(records, path) is None && (forall|i: int|
            0 <= i < found.len() ==> (#[trigger] found[i]).path != path) ==> recorded(
            with_new(found, records),
            path,
        ) is None,
        forall|i: int|
            0 <= i < found.len() && (#[trigger] found[i]).path == path && recorded(records, path)
                is None ==> recorded(with_new(found, records), path) == Some(
                EntryView {
                    id: found[i].id.0,
                    path,
                    branch: found[i].branch,
                    owner_session: 0,
                    created_ms: 0,
                },
            ),
    decreases found.len(),
{
    if found.len() > 0 {
        let rest = found.drop_last();
        assert forall|i: int, j: int| 0 <= i < j < rest.len() implies (#[trigger] rest[i]).path != (
        #[trigger] rest[j]).path by {
            assert(found[i].path != found[j].path);
        }
        lemma_with_new(rest, records, path);
        let before = with_new(rest, records);
        let wt = found.last();
        let entry = EntryView {
            id: wt.id.0,
            path: wt.path,
            branch: wt.branch,
            owner_session: 0,
            created_ms: 0,
        };
        assert(before.push(entry).drop_last() =~= before);
        assert forall|i: int|
            0 <= i < found.len() && (#[trigger] found[i]).path == path && recorded(records, path)
                is None implies recorded(with_new(found, records), path) == Some(
            EntryView {
                id: found[i].id.0,
                path,
                branch: found[i].branch,
                owner_session: 0,
                created_ms: 0,
            },
        ) by {
            if i < rest.len() {
                assert(rest[i] == found[i]);
                assert(found[i].path != found[found.len() - 1].path);
            }
        }
        if forall|i: int| 0 <= i < found.len() ==> (#[trigger] found[i]).path != path {
            assert forall|i: int| 0 <= i < rest.len() implies (#[trigger] rest[i]).path != path by {
                assert(rest[i] == found[i]);
            }
            assert(found[found.len() - 1].path != path);
        }
    }
}

/// Discovering the same worktrees once more, with what the first discovery
/// recorded, gives the same worktrees: ids are stable, whatever id would be free.
pub proof fn law_discovery_is_stable(
    found: Seq<(Seq<char>, Seq<char>)>,
    root: Seq<char>,
    records: Seq<EntryView>,
    next_id: u64,
    later_id: u64,
)
    requires
        distinct_paths(found),
    ensures
        ({
            let first = discovered(found, root, records, next_id).0;
            discovered(found, root, with_new(first, records), later_id) == (first, later_id)
        }),
{
    let first = discovered(found, root, records, next_id).0;
    lemma_discovered_len(found, root, records, next_id);
    assert forall|i: int, j: int| 0 <= i < j < first.len() implies (#[trigger] first[i]).path != (
    #[trigger] first[j]).path by {
        law_owners_are_never_invented(found, root, records, next_id, i);
        law_owners_are_never_invented(found, root, records, next_id, j);
        assert(found[i].0 != found[j].0);
    }
    assert(first.take(found.len() as int) =~= first);
    lemma_stable(found, root, records, with_new(first, records), next_id, later_id, first);
}

proof fn lemma_discovered_len(
    found: Seq<(Seq<char>, Seq<char>)>,
    root: Seq<char>,
    records: Seq<EntryView>,
    next_id: u64,
)
    ensures
        discovered(found, root, records, next_id).0.len() == found.len(),
    decreases found.len(),
{
    if found.len() > 0 {
        lemma_discovered_len(found.drop_last(), root, records, next_id);
    }
}

/// The worktrees of a prefix are a prefix of the worktrees.
proof fn lemma_discovered_prefix(
    found: Seq<(Seq<char>, Seq<char>)>,
    root: Seq<char>,
    records: Seq<EntryView>,
    next_id: u64,
)
    requires
        found.len() > 0,
    ensures
        discovered(found, root, records, next_id).0.drop_last() == discovered(
            found.drop_last(),
            root,
            records,
            next_id,
        ).0,
{
    let before = discovered(found.drop_last(), root, records, next_id).0;
    let all = discovered(found, root, records, next_id).0;
    assert(all.drop_last() =~= before);
}

proof fn lemma_stable(
    found: Seq<(Seq<char>, Seq<char>)>,
    root: Seq<char>,
    records: Seq<EntryView>,
    later: Seq<EntryView>,
    next_id: u64,
    later_id: u64,
    all: Seq<TreeView>,
)
    requires
        found.len() <= all.len(),
        later == with_new(all, records),
        all.take(found.len() as int) == discovered(found, root, records, next_id).0,
        forall|i: int, j: int|
            0 <= i < j < all.len() ==> (#[trigger] all[i]).path != (#[trigger] all[j]).path,
    ensures
        discovered(found, root, later, later_id) == (
            discovered(found, root, records, next_id).0,
            later_id,
        ),
    decreases found.len(),
{
    if found.len() > 0 {
        let rest = found.drop_last();
        let n = found.len() as int;
        lemma_discovered_prefix(found, root, records, next_id);
        assert(all.take(n).drop_last() =~= all.take(n - 1));
        lemma_stable(rest, root, records, later, next_id, later_id, all);
        law_owners_are_never_invented(found, root, records, next_id, n - 1);
        let wt = all[n - 1];
        assert(all.take(n)[n - 1] == wt);
        lemma_with_new(all, records, found.last().0);
        assert(wt.path == found.last().0);
        lemma_tree_root(found, root, records, next_id, n - 1);
        let e = recorded(later, wt.path);
        assert(e is Some);
        let again = discovered(found, root, later, later_id).0;
        let before = discovered(rest, root, records, next_id).0;
        assert(again == before.push(again.last()));
        assert(again.last() == wt);
        assert(before.push(wt) =~= all.take(n));
    }
}

proof fn lemma_tree_root(
    found: Seq<(Seq<char>, Seq<char>)>,
    root: Seq<char>,
    records: Seq<EntryView>,
    next_id: u64,
    i: int,
)
    requires
        0 <= i < found.len(),
    ensures
        discovered(found, root, records, next_id).0[i].workspace_root == root,
    decreases found.len(),
{
    lemma_discovered_len(found, root, records, next_id);
    if i < found.len() - 1 {
        lemma_discovered_prefix(found, root, records, next_id);
        lemma_discovered_len(found.drop_last(), root, records, next_id);
        lemma_tree_root(found.drop_last(), root, records, next_id, i);
        let all = discovered(found, root, records, next_id).0;
        assert(all.drop_last()[i] == all[i]);
    }
}

/// Repairing keeps the records whose directories are there and reports the paths
/// of the others, each record one way or the other.
pub proof fn law_repair_accounts_for_every_record(records: Seq<EntryView>, present: Seq<bool>)
    requires
        records.len() == present.len(),
    ensures
        kept(records, present).len() + vanished(records, present).len() == records.len(),
        (forall|i: int| 0 <= i < present.len() ==> present[i]) ==> kept(records, present)
            == records,
    decreases records.len(),
{
    if records.len() > 0 {
        let p = present.drop_last();
        law_repair_accounts_for_every_record(records.drop_last(), p);
        if forall|i: int| 0 <= i < present.len() ==> present[i] {
            assert(present[present.len() - 1]);
            assert(forall|i: int| 0 <= i < p.len() ==> p[i] == present[i]);
            assert(records.drop_last().push(records.last()) =~= records);
        }
    } else {
        assert(kept(records, present) =~= records);
    }
}

/// A text of one line that white space neither begins nor ends.
pub open spec fn plain(s: Seq<char>) -> bool {
    s.len() > 0 && !s.contains('\n') && !text::is_ws(s[0]) && !text::is_ws(s.last())
}

/// How git lists one worktree on a branch.
pub open spec fn listed_on(path: Seq<char>, head: Seq<char>, branch: Seq<char>) -> Seq<char> {
    listed_detached(path, head) + ("branch refs/heads/"@ + branch + seq!['\n'])
}

/// How git lists one worktree that is on no branch.
pub open spec fn listed_detached(path: Seq<char>, head: Seq<char>) -> Seq<char> {
    ("worktree "@ + path + seq!['\n']) + ("HEAD "@ + head + seq!['\n'])
}

/// A line behind a text that is empty or ends with a line feed.
proof fn lemma_next_line(before: Seq<char>, line: Seq<char>)
    requires
        before.len() == 0 || before.last() == '\n',
        line.len() > 0,
        !line.contains('\n'),
        line.last() != '\r',
    ensures
        text::lines_of(before + (line + seq!['\n'])) == text::lines_of(before).push(line),
{
    text::law_lines_of_texts_follow_on(before, line + seq!['\n']);
    text::law_lines_end_at_line_feeds(line, Seq::empty());
    assert(line + seq!['\n'] + Seq::<char>::empty() =~= line + seq!['\n']);
    assert(text::lines_of(before) + (seq![line] + Seq::<Seq<char>>::empty()) =~= text::lines_of(
        before,
    ).push(line));
}

proof fn lemma_no_feed(a: Seq<char>, b: Seq<char>)
    requires
        !a.contains('\n'),
        !b.contains('\n'),
    ensures
        !(a + b).contains('\n'),
{
    if (a + b).contains('\n') {
        let k = choose|k: int| 0 <= k < (a + b).len() && (a + b)[k] == '\n';
        if k < a.len() {
            assert(a[k] == '\n');
        } else {
            assert(b[k - a.len()] == '\n');
        }
    }
}

proof fn lemma_words_of_a_list()
    ensures
        !"worktree "@.contains('\n'),
        !"HEAD "@.contains('\n'),
        !"branch refs/heads/"@.contains('\n'),
        "worktree "@.len() == 9,
        "HEAD "@.len() == 5,
        "branch refs/heads/"@.len() == 18,
        "worktree "@[0] == 'w',
        "HEAD "@[0] == 'H',
        "HEAD "@.last() == ' ',
        "branch refs/heads/"@[0] == 'b',
{
    reveal_strlit("worktree ");
    reveal_strlit("HEAD ");
    reveal_strlit("branch refs/heads/");
}

/// A worktree that git lists is found with its path and its branch, behind those
/// that are listed before it. One on no branch is found without a branch.
#[verifier::rlimit(20)]
pub proof fn law_a_listed_worktree_is_found(
    before: Seq<char>,
    path: Seq<char>,
    head: Seq<char>,
    branch: Seq<char>,
)
    requires
        before.len() == 0 || before.last() == '\n',
        plain(path),
        plain(branch),
        !head.contains('\n'),
        !head.contains('\r'),
    ensures
        listed(text::lines_of(before + listed_on(path, head, branch))) == listed(
            text::lines_of(before),
        ).push((path, branch)),
        listed(text::lines_of(before + listed_detached(path, head))) == listed(
            text::lines_of(before),
        ).push((path, Seq::empty())),
{
    lemma_words_of_a_list();
    let first = "worktree "@ + path;
    let second = "HEAD "@ + head;
    let third = "branch refs/heads/"@ + branch;
    lemma_no_feed("worktree "@, path);
    lemma_no_feed("HEAD "@, head);
    lemma_no_feed("branch refs/heads/"@, branch);
    assert(first.last() == path.last());
    assert(third.last() == branch.last());
    assert(second.last() != '\r') by {
        if head.len() > 0 {
            assert(second.last() == head.last());
            assert(head.contains(head.last()));
        }
    }
    let a = before + (first + seq!['\n']);
    let b = a + (second + seq!['\n']);
    let c = b + (third + seq!['\n']);
    lemma_next_line(before, first);
    lemma_next_line(a, second);
    lemma_next_line(b, third);
    assert(before + listed_detached(path, head) =~= b);
    assert(before + listed_on(path, head, branch) =~= c);
    let l0 = text::lines_of(before);
    assert(l0.push(first).drop_last() =~= l0);
    assert(l0.push(first).push(second).drop_last() =~= l0.push(first));
    assert(l0.push(first).push(second).push(third).drop_last() =~= l0.push(first).push(second));
    assert("worktree "@ =~= first.subrange(0, 9));
    assert(names_tree(first));
    assert(first.skip(9) =~= path);
    assert(!names_tree(second) && !names_branch(second)) by {
        if names_tree(second) {
            assert(second[0] == "worktree "@[0]);
        }
        if names_branch(second) {
            assert(second[0] == "branch refs/heads/"@[0]);
        }
    }
    assert(!names_tree(third)) by {
        if names_tree(third) {
            assert(third[0] == "worktree "@[0]);
        }
    }
    assert("branch refs/heads/"@ =~= third.subrange(0, 18));
    assert(names_branch(third));
    assert(third.skip(18) =~= branch);
    text::law_trimming_leaves_the_text(Seq::empty(), path, Seq::empty());
    text::law_trimming_leaves_the_text(Seq::empty(), branch, Seq::empty());
    assert(Seq::<char>::empty() + path + Seq::<char>::empty() =~= path);
    assert(Seq::<char>::empty() + branch + Seq::<char>::empty() =~= branch);
    let found = listed(l0);
    let none = found.push((path, Seq::<char>::empty()));
    assert(listed(l0.push(first)) == none);
    assert(none.drop_last() =~= found);
    let two = l0.push(first).push(second);
    assert(two.last() == second);
    assert(listed(two) == none);
    assert(two.push(third).last() == third);
    assert(listed(two.push(third)) == found.push((path, branch)));
}

/// Discovering in a listing of one worktree finds that worktree, at its path, on
/// its branch and in its repository.
#[verifier::rlimit(20)]
pub proof fn law_discovering_one_worktree_finds_it(
    path: Seq<char>,
    head: Seq<char>,
    branch: Seq<char>,
    root: Seq<char>,
    records: Seq<EntryView>,
    next_id: u64,
)
    requires
        plain(path),
        plain(branch),
        !head.contains('\n'),
        !head.contains('\r'),
    ensures
        ({
            let out = "worktree "@ + path + "\nHEAD "@ + head + "\nbranch refs/heads/"@ + branch
                + "\n"@;
            let found = discovered(listed(text::lines_of(out)), root, records, next_id).0;
            &&& found.len() == 1
            &&& found[0].path == path
            &&& found[0].branch == branch
            &&& found[0].workspace_root == root
        }),
{
    let out = "worktree "@ + path + "\nHEAD "@ + head + "\nbranch refs/heads/"@ + branch + "\n"@;
    reveal_strlit("\nHEAD ");
    reveal_strlit("HEAD ");
    reveal_strlit("\nbranch refs/heads/");
    reveal_strlit("branch refs/heads/");
    reveal_strlit("\n");
    assert("\nHEAD "@ =~= seq!['\n'] + "HEAD "@);
    assert("\nbranch refs/heads/"@ =~= seq!['\n'] + "branch refs/heads/"@);
    assert("\n"@ =~= seq!['\n']);
    let none = Seq::<char>::empty();
    assert(out =~= none + listed_on(path, head, branch));
    law_a_listed_worktree_is_found(none, path, head, branch);
    let found = listed(text::lines_of(out));
    assert(found =~= seq![(path, branch)]);
    lemma_discovered_len(found, root, records, next_id);
    law_owners_are_never_invented(found, root, records, next_id, 0);
    lemma_tree_root(found, root, records, next_id, 0);
}

/// Worktrees without a record get the free numbers one after the other; those
/// with a record take none.
pub proof fn law_new_worktrees_are_numbered_in_order(
    found: Seq<(Seq<char>, Seq<char>)>,
    next: (Seq<char>, Seq<char>),
    root: Seq<char>,
    records: Seq<EntryView>,
    next_id: u64,
)
    ensures
        ({
            let before = discovered(found, root, records, next_id);
            let after = discovered(found.push(next), root, records, next_id);
            &&& after.0.drop_last() == before.0
            &&& recorded(records, next.0) is None ==> after.0.last().id == WorktreeId(before.1)
            &&& recorded(records, next.0) is None && before.1 < u64::MAX ==> after.1 == before.1 + 1
            &&& recorded(records, next.0) is None && before.1 == u64::MAX ==> after.1 == 0
            &&& recorded(records, next.0) is Some ==> after.1 == before.1
        }),
        discovered(Seq::empty(), root, records, next_id) == (Seq::<TreeView>::empty(), next_id),
{
    assert(found.push(next).drop_last() =~= found);
    lemma_discovered_prefix(found.push(next), root, records, next_id);
}

/// A discovered worktree without a record is recorded under its number, without an
/// owner, and every record before stays as it is.
pub proof fn law_discovery_records_what_is_new(
    found: Seq<TreeView>,
    records: Seq<EntryView>,
    wt: TreeView,
)
    ensures
        with_new(Seq::empty(), records) == records,
        recorded(records, wt.path) is Some ==> with_new(found.push(wt), records) == with_new(
            found,
            records,
        ),
        recorded(records, wt.path) is None ==> with_new(found.push(wt), records) == with_new(
            found,
            records,
        ).push(
            EntryView {
                id: wt.id.0,
                path: wt.path,
                branch: wt.branch,
                owner_session: 0,
                created_ms: 0,
            },
        ),
{
    assert(found.push(wt).drop_last() =~= found);
}

/// The record of a path is the last one of that path.
pub proof fn law_the_last_record_counts(list: Seq<EntryView>, path: Seq<char>, i: int)
    requires
        -1 <= i < list.len(),
        forall|j: int| i < j < list.len() ==> (#[trigger] list[j]).path != path,
    ensures
        i >= 0 && list[i].path == path ==> recorded(list, path) == Some(list[i]),
        i == -1 ==> recorded(list, path) is None,
    decreases list.len(),
{
    if list.len() > 0 {
        let rest = list.drop_last();
        if i < list.len() - 1 {
            assert(list[list.len() - 1].path != path);
            assert forall|j: int| i < j < rest.len() implies (#[trigger] rest[j]).path != path by {
                assert(rest[j] == list[j]);
            }
            law_the_last_record_counts(rest, path, i);
        }
    }
}

/// A branch is accepted exactly where it has between 1 and 128 bytes, does not
/// begin with a dash, does not end with a slash, and holds no two dots in a row,
/// no control character and no character that git refuses.
pub proof fn law_which_branches_are_accepted(branch: Seq<char>)
    ensures
        branch_fault(branch) is None <==> {
            &&& 1 <= vstd::utf8::encode_utf8(branch).len() <= 128
            &&& branch[0] != '-'
            &&& branch.last() != '/'
            &&& !text::has(branch, seq!['.', '.'])
            &&& forall|i: int| 0 <= i < branch.len() ==> fine_char(#[trigger] branch[i])
        },
        branch_fault(branch) matches Some(f) ==> f.kind == ErrorKind::Malformed,
{
    text::lemma_byte_len_encode(branch);
    text::lemma_byte_len_bounds(branch);
    reveal_strlit("..");
    assert(".."@ =~= seq!['.', '.']);
    assert forall|i: int| 0 <= i < branch.len() implies bad_branch_char(branch[i]) == !fine_char(
        #[trigger] branch[i],
    ) by {
        lemma_fine_char(branch[i]);
    }
}

/// A character that git takes in the name of a branch.
pub open spec fn fine_char(c: char) -> bool {
    &&& '\u{20}' < c < '\u{7f}' || '\u{9f}' < c
    &&& c != '~' && c != '^' && c != ':' && c != '?' && c != '*' && c != '[' && c != '\\'
}

proof fn lemma_fine_char(c: char)
    ensures
        bad_branch_char(c) == !fine_char(c),
{
}

/// The name of a worktree is accepted exactly where it has between 1 and 64
/// bytes, no slash, no space, no tab and no two dots in a row.
pub proof fn law_which_names_are_accepted(name: Seq<char>)
    ensures
        name_fault(name) is None <==> {
            &&& 1 <= vstd::utf8::encode_utf8(name).len() <= 64
            &&& !text::has(name, seq!['.', '.'])
            &&& forall|i: int|
                0 <= i < name.len() ==> (#[trigger] name[i]) != '/' && name[i] != ' ' && name[i]
                    != '\t'
        },
        name_fault(name) matches Some(f) ==> f.kind == ErrorKind::Malformed,
{
    text::lemma_byte_len_encode(name);
    reveal_strlit("..");
    assert(".."@ =~= seq!['.', '.']);
    assert forall|i: int| 0 <= i < name.len() implies name.contains(#[trigger] name[i]) by {}
}

/// What git wrote is its output line by line, without the lines that begin with
/// the supervisor's mark.
pub proof fn law_only_the_trailer_is_stripped(lines: Seq<Seq<char>>, line: Seq<char>, rest: Seq<char>)
    ensures
        own_lines(Seq::empty()) == Seq::<Seq<char>>::empty(),
        own_lines(lines.push("[exit code: "@ + rest)) == own_lines(lines),
        !("[exit code: "@).is_prefix_of(line) ==> own_lines(lines.push(line)) == own_lines(
            lines,
        ).push(line),
{
    let t = "[exit code: "@ + rest;
    assert(lines.push(t).drop_last() =~= lines);
    assert(lines.push(line).drop_last() =~= lines);
    assert("[exit code: "@ =~= t.subrange(0, "[exit code: "@.len() as int));
}

/// A call of git succeeds exactly where git ended with 0. A failure names the
/// arguments and the exit code, and shows the beginning of what was written.
pub proof fn law_a_failed_call_is_told(
    args: Seq<Seq<char>>,
    exit_code: Option<i32>,
    excerpt: Seq<char>,
)
    ensures
        git_outcome(args, exit_code, excerpt) is Ok <==> exit_code == Some(0i32),
        exit_code != Some(0i32) && vstd::utf8::encode_utf8(excerpt).len() <= 2000 ==> git_outcome(
            args,
            exit_code,
            excerpt,
        ) == Err::<Seq<char>, error::FaultView>(
            error::fault(
                ErrorKind::Internal,
                "git "@ + text::join(args, seq![' ']) + " failed ("@ + text::signed_decimal(
                    match exit_code {
                        Some(c) => c as int,
                        None => -1,
                    },
                ) + "): "@ + excerpt,
            ),
        ),
{
    text::lemma_byte_len_encode(excerpt);
}

/// A text that fits is kept; of a longer one the longest beginning that fits is
/// kept, with an ellipsis behind it.
pub proof fn law_a_long_text_is_cut_openly(s: Seq<char>, max: nat, n: int)
    requires
        0 <= n <= s.len(),
    ensures
        vstd::utf8::encode_utf8(s).len() <= max ==> truncated(s, max) == s,
        vstd::utf8::encode_utf8(s).len() > max ==> {
            let kept = truncated(s, max).drop_last();
            &&& truncated(s, max).last() == '\u{2026}'
            &&& kept.is_prefix_of(s)
            &&& vstd::utf8::encode_utf8(kept).len() <= max
            &&& vstd::utf8::encode_utf8(s.take(n)).len() <= max ==> n <= kept.len()
        },
{
    text::lemma_byte_len_encode(s);
    text::law_a_cap_leaves_the_longest_prefix(s, max as int, n);
    if text::byte_len(s) > max {
        assert(truncated(s, max).drop_last() =~= text::cap_to(s, max as int));
    }
}

/// A record whose path has between 1 and 4096 bytes and whose branch has at most
/// 256.
pub open spec fn in_bounds() -> spec_fn(EntryView) -> bool {
    |e: EntryView|
        1 <= vstd::utf8::encode_utf8(e.path).len() <= 4096 && vstd::utf8::encode_utf8(
            e.branch,
        ).len() <= 256
}

/// Of at most 500 records those within bounds are taken over, in their order, and
/// of more none is.
pub proof fn law_records_within_bounds_are_taken_over(list: Seq<EntryView>)
    ensures
        list.len() <= 500 ==> loaded(Some(list)) == list.filter(in_bounds()),
        list.len() > 500 ==> loaded(Some(list)) == Seq::<EntryView>::empty(),
        loaded(None) == Seq::<EntryView>::empty(),
{
    lemma_sane_entries_are(list);
}

proof fn lemma_sane_entries_are(list: Seq<EntryView>)
    ensures
        sane_entries(list) == list.filter(in_bounds()),
    decreases list.len(),
{
    reveal(Seq::filter);
    if list.len() > 0 {
        lemma_sane_entries_are(list.drop_last());
        text::lemma_byte_len_encode(list.last().path);
        text::lemma_byte_len_encode(list.last().branch);
    }
}

/// The record of a worktree holds its id, its path, its branch and its owner, and
/// the owner reads back; 0 stands for none.
pub proof fn law_a_record_holds_its_worktree(wt: TreeView, created_ms: i64)
    ensures
        ({
            let e = entry_of(wt, created_ms);
            &&& e.id == wt.id.0
            &&& e.path == wt.path
            &&& e.branch == wt.branch
            &&& e.created_ms == created_ms
            &&& wt.owner_session matches Some(s) ==> e.owner_session == s.0
            &&& wt.owner_session is None ==> e.owner_session == 0
        }),
        owner_of(0) is None,
        forall|n: u64| n != 0 ==> (#[trigger] owner_of(n)) == Some(SessionId(n)),
{
}

/// Removing a path leaves the records of other paths, in their order.
pub proof fn law_removing_leaves_the_others(list: Seq<EntryView>, e: EntryView, path: Seq<char>)
    ensures
        without(Seq::empty(), path) == Seq::<EntryView>::empty(),
        e.path == path ==> without(list.push(e), path) == without(list, path),
        e.path != path ==> without(list.push(e), path) == without(list, path).push(e),
{
    assert(list.push(e).drop_last() =~= list);
}

/// A record whose directory is there is kept; of another one the path is
/// reported.
pub proof fn law_repair_keeps_what_is_there(
    list: Seq<EntryView>,
    present: Seq<bool>,
    e: EntryView,
    there: bool,
)
    ensures
        there ==> kept(list.push(e), present.push(there)) == kept(list, present).push(e)
            && vanished(list.push(e), present.push(there)) == vanished(list, present),
        !there ==> kept(list.push(e), present.push(there)) == kept(list, present) && vanished(
            list.push(e),
            present.push(there),
        ) == vanished(list, present).push(e.path),
        kept(Seq::empty(), present) == Seq::<EntryView>::empty(),
        vanished(Seq::empty(), present) == Seq::<Seq<char>>::empty(),
{
    assert(list.push(e).drop_last() =~= list);
    assert(present.push(there).drop_last() =~= present);
}

/// A worktree is made below the directory for worktrees of its repository.
pub proof fn law_worktrees_are_made_below_the_repository(root: Seq<char>, name: Seq<char>)
    ensures
        root.len() > 0 && root.last() != '/' ==> below(root, ".worktrees/"@ + name) == root
            + "/.worktrees/"@ + name,
        root.len() > 0 && root.last() == '/' ==> below(root, ".worktrees/"@ + name) == root
            + ".worktrees/"@ + name,
{
    reveal_strlit("/");
    reveal_strlit(".worktrees/");
    reveal_strlit("/.worktrees/");
    assert("/.worktrees/"@ =~= "/"@ + ".worktrees/"@);
    assert(root + "/"@ + (".worktrees/"@ + name) =~= root + "/.worktrees/"@ + name);
    assert(root + (".worktrees/"@ + name) =~= root + ".worktrees/"@ + name);
}

/// A worktree that was not recorded before it was moved gets a record with its id,
/// its path, its branch and the time, under its new owner.
pub proof fn law_a_moved_worktree_gets_a_record(
    records: Seq<EntryView>,
    wt: TreeView,
    new_owner: SessionId,
    now_ms: i64,
)
    requires
        forall|i: int| 0 <= i < records.len() ==> (#[trigger] records[i]).path != wt.path,
    ensures
        ({
            let after = moved(records, wt, new_owner, now_ms);
            &&& after.drop_last() == records
            &&& after.last().id == wt.id.0
            &&& after.last().path == wt.path
            &&& after.last().branch == wt.branch
            &&& after.last().owner_session == new_owner.0
            &&& after.last().created_ms == now_ms
        }),
{
    law_the_last_record_counts(records, wt.path, -1);
    let after = moved(records, wt, new_owner, now_ms);
    assert(after.drop_last() =~= records);
}

/// Every worktree of a listing belongs to the repository that was asked about.
pub proof fn law_worktrees_belong_to_their_repository(
    found: Seq<(Seq<char>, Seq<char>)>,
    root: Seq<char>,
    records: Seq<EntryView>,
    next_id: u64,
    i: int,
)
    requires
        0 <= i < found.len(),
    ensures
        discovered(found, root, records, next_id).0.len() == found.len(),
        discovered(found, root, records, next_id).0[i].workspace_root == root,
{
    lemma_discovered_len(found, root, records, next_id);
    lemma_tree_root(found, root, records, next_id, i);
}

/// A worktree and a record are what their parts are.
pub proof fn law_trees_and_records_are_their_parts(wt: Worktree, e: MetaEntry)
    ensures
        wt@.id == wt.id,
        wt@.workspace_root == wt.workspace_root@,
        wt@.path == wt.path@,
        wt@.branch == wt.branch@,
        wt@.owner_session == wt.owner_session,
        e@.id == e.id,
        e@.path == e.path@,
        e@.branch == e.branch@,
        e@.owner_session == e.owner_session,
        e@.created_ms == e.created_ms,
{
}

/// A line of git's list that names neither a worktree nor a branch changes nothing,
/// and neither does the name of a branch before any worktree.
pub proof fn law_other_lines_of_a_list_are_passed_over(lines: Seq<Seq<char>>, line: Seq<char>)
    ensures
        !("worktree "@).is_prefix_of(line) && !("branch refs/heads/"@).is_prefix_of(line) ==> listed(
            lines.push(line),
        ) == listed(lines),
        listed(lines).len() == 0 && !("worktree "@).is_prefix_of(line) ==> listed(lines.push(line))
            == listed(lines),
        listed(Seq::empty()) == Seq::<(Seq<char>, Seq<char>)>::empty(),
{
    assert(lines.push(line).drop_last() =~= lines);
}

} // verus!

//! The walk to an entry below a workspace root on Unix, one component at a
//! time.
//!
//! A path is bytes, split at `/`; an empty component and `.` are dropped.
//! [`UnixWalk`] touches no file system: it says what is to be done next
//! ([`Step`]) and is told what came of it ([`Event`]). Whoever drives it holds
//! the current directory and the entry opened last, and opens every name
//! relative to the current directory, without following it. A symbolic link is
//! handed to the walk, which follows it only where its target does not leave
//! the root, and at most [`MAX_SYMLINK_HOPS`] times.
use vstd::prelude::*;
use vstd::slice::slice_subrange;

use crate::error::{Error, ErrorKind, PathText};
use crate::error;
use crate::text;

verus! {

/// How many links one walk may follow.
pub const MAX_SYMLINK_HOPS: usize = 8;

/// How many components a caller's path may have.
pub const MAX_COMPONENTS: usize = 4096;

// -------------------------------------------------------------------- paths

/// The names in `list`.
pub open spec fn parts(list: Seq<Vec<u8>>) -> Seq<Seq<u8>> {
    Seq::new(list.len(), |i: int| list[i]@)
}

/// `.`
pub open spec fn dot() -> Seq<u8> {
    seq![46u8]
}

/// `..`
pub open spec fn dotdot() -> Seq<u8> {
    seq![46u8, 46u8]
}

fn is_dot(comp: &[u8]) -> (r: bool)
    ensures
        r == (comp@ == dot()),
{
    let r: bool = comp.len() == 1 && comp[0] == 46;
    proof {
        assert(r ==> comp@ =~= dot());
    }
    r
}

/// Whether the component is `..`.
pub fn is_parent(comp: &[u8]) -> (r: bool)
    ensures
        r == (comp@ == dotdot()),
{
    let r: bool = comp.len() == 2 && comp[0] == 46 && comp[1] == 46;
    proof {
        assert(r ==> comp@ =~= dotdot());
        assert(comp@ == dotdot() ==> comp@[1] == 46);
    }
    r
}

/// Begins with `/`.
pub open spec fn absolute(path: Seq<u8>) -> bool {
    path.len() > 0 && path[0] == 47
}

/// The first `/` in `s`, or the length of `s`.
pub open spec fn slash_index(s: Seq<u8>) -> int
    decreases s.len(),
{
    if s.len() == 0 || s[0] == 47 {
        0
    } else {
        1 + slash_index(s.drop_first())
    }
}

proof fn lemma_slash_index(s: Seq<u8>, n: int)
    requires
        0 <= n <= s.len(),
        n < s.len() ==> s[n] == 47,
        forall|j: int| 0 <= j < n ==> s[j] != 47,
    ensures
        slash_index(s) == n,
    decreases n,
{
    if n > 0 {
        assert(s[0] != 47);
        let t = s.drop_first();
        assert forall|j: int| 0 <= j < n - 1 implies t[j] != 47 by {
            assert(t[j] == s[j + 1]);
        }
        lemma_slash_index(t, n - 1);
    }
}

/// Nothing to enter: empty, or `.`.
pub open spec fn idle(comp: Seq<u8>) -> bool {
    comp.len() == 0 || comp == dot()
}

/// `comp` as a list of one, or of none where it is [`idle`].
pub open spec fn busy(comp: Seq<u8>) -> Seq<Seq<u8>> {
    if idle(comp) {
        Seq::empty()
    } else {
        seq![comp]
    }
}

/// The components of a path; `..` stands for itself.
pub open spec fn names(s: Seq<u8>) -> Seq<Seq<u8>>
    decreases s.len(),
{
    let n = slash_index(s);
    if 0 <= n < s.len() {
        busy(s.take(n)) + names(s.skip(n + 1))
    } else {
        busy(s)
    }
}

/// The same bytes in a vector of their own.
pub fn copy_name(s: &[u8]) -> (r: Vec<u8>)
    ensures
        r@ == s@,
{
    let mut out: Vec<u8> = Vec::new();
    let mut i: usize = 0;
    while i < s.len()
        invariant
            i <= s.len(),
            out@ == s@.take(i as int),
        decreases s.len() - i,
    {
        out.push(s[i]);
        i = i + 1;
        proof {
            assert(s@.take(i as int) =~= s@.take(i as int - 1).push(s@[i as int - 1]));
        }
    }
    proof {
        assert(s@.take(i as int) =~= s@);
    }
    out
}

/// Appends `comp` where there is something to enter.
fn push_busy(out: &mut Vec<Vec<u8>>, comp: &[u8])
    ensures
        parts(final(out)@) == parts(old(out)@) + busy(comp@),
{
    if comp.len() > 0 && !is_dot(comp) {
        out.push(copy_name(comp));
    }
    proof {
        assert(parts(out@) =~= parts(old(out)@) + busy(comp@));
    }
}

/// The components of a path.
pub fn split_path(s: &[u8]) -> (r: Vec<Vec<u8>>)
    ensures
        parts(r@) == names(s@),
{
    let mut out: Vec<Vec<u8>> = Vec::new();
    let mut rest: &[u8] = s;
    proof {
        assert(parts(out@) + names(s@) =~= names(s@));
    }
    loop
        invariant
            parts(out@) + names(rest@) == names(s@),
        decreases rest@.len(),
    {
        let mut n: usize = 0;
        while n < rest.len() && rest[n] != 47
            invariant
                n <= rest.len(),
                forall|j: int| 0 <= j < n ==> rest@[j] != 47,
            decreases rest.len() - n,
        {
            n = n + 1;
        }
        let ghost before = parts(out@);
        let ghost old_rest = rest@;
        proof {
            lemma_slash_index(rest@, n as int);
        }
        if n == rest.len() {
            push_busy(&mut out, rest);
            return out;
        }
        let comp: &[u8] = slice_subrange(rest, 0, n);
        push_busy(&mut out, comp);
        rest = slice_subrange(rest, n + 1, rest.len());
        proof {
            assert(comp@ =~= old_rest.take(n as int));
            assert(rest@ =~= old_rest.skip(n as int + 1));
            assert(before + names(old_rest) =~= parts(out@) + names(rest@));
        }
    }
}

/// `list` begins with the names of `head`.
pub open spec fn begins_with_names(list: Seq<Seq<u8>>, head: Seq<Seq<u8>>) -> bool {
    list.len() >= head.len() && list.take(head.len() as int) == head
}

/// The components of the absolute `path` behind those of the absolute `root`.
pub open spec fn below_root(root: Seq<u8>, path: Seq<u8>) -> Option<Seq<Seq<u8>>> {
    if absolute(root) && absolute(path) && begins_with_names(names(path), names(root)) {
        Some(names(path).skip(names(root).len() as int))
    } else {
        None
    }
}

/// Whether two names are the same bytes.
pub fn same_name(a: &[u8], b: &[u8]) -> (r: bool)
    ensures
        r == (a@ == b@),
{
    if a.len() != b.len() {
        return false;
    }
    let mut i: usize = 0;
    while i < a.len()
        invariant
            i <= a.len(),
            a.len() == b.len(),
            forall|j: int| 0 <= j < i ==> a@[j] == b@[j],
        decreases a.len() - i,
    {
        if a[i] != b[i] {
            return false;
        }
        i = i + 1;
    }
    proof {
        assert(a@ =~= b@);
    }
    true
}

/// The names from number `from` on.
fn names_from(comps: &Vec<Vec<u8>>, from: usize) -> (r: Vec<Vec<u8>>)
    requires
        from <= comps.len(),
    ensures
        parts(r@) == parts(comps@).skip(from as int),
{
    let mut out: Vec<Vec<u8>> = Vec::new();
    let mut i: usize = from;
    while i < comps.len()
        invariant
            from <= i <= comps.len(),
            parts(out@) == parts(comps@).subrange(from as int, i as int),
        decreases comps.len() - i,
    {
        let ghost before = parts(out@);
        let name: Vec<u8> = copy_name(comps[i].as_slice());
        out.push(name);
        i = i + 1;
        proof {
            assert(parts(out@) =~= before.push(name@));
            assert(parts(comps@).subrange(from as int, i as int) =~= before.push(
                parts(comps@)[i as int - 1],
            ));
        }
    }
    proof {
        assert(parts(comps@).subrange(from as int, i as int) =~= parts(comps@).skip(from as int));
    }
    out
}

/// The components of `path` behind those of `root`, where it is below `root`.
pub fn strip_root(root: &[u8], path: &[u8]) -> (r: Option<Vec<Vec<u8>>>)
    ensures
        match below_root(root@, path@) {
            Some(rest) => r matches Some(list) && parts(list@) == rest,
            None => r is None,
        },
{
    if root.len() == 0 || root[0] != 47 || path.len() == 0 || path[0] != 47 {
        return None;
    }
    let head: Vec<Vec<u8>> = split_path(root);
    let list: Vec<Vec<u8>> = split_path(path);
    if list.len() < head.len() {
        return None;
    }
    let ghost h = parts(head@);
    let ghost l = parts(list@);
    let mut i: usize = 0;
    while i < head.len()
        invariant
            i <= head.len() <= list.len(),
            h == parts(head@),
            l == parts(list@),
            h == names(root@),
            l == names(path@),
            absolute(root@),
            absolute(path@),
            forall|j: int| 0 <= j < i ==> l[j] == h[j],
        decreases head.len() - i,
    {
        if !same_name(list[i].as_slice(), head[i].as_slice()) {
            proof {
                assert(l.take(h.len() as int)[i as int] != h[i as int]);
            }
            return None;
        }
        i = i + 1;
    }
    proof {
        assert(l.take(h.len() as int) =~= h);
    }
    Some(names_from(&list, head.len()))
}

/// Whether `path` is `root` or below it.
pub open spec fn within(root: Seq<u8>, path: Seq<u8>) -> bool {
    below_root(root, path) is Some
}

/// Whether `path` is `root` or below it.
pub fn is_within(root: &[u8], path: &[u8]) -> (r: bool)
    ensures
        r == within(root@, path@),
{
    match strip_root(root, path) {
        Some(_) => true,
        None => false,
    }
}

// -------------------------------------------------------- the caller's path

/// Some component goes up.
pub open spec fn climbs(list: Seq<Seq<u8>>) -> bool {
    list.contains(dotdot())
}

/// Some component holds a NUL.
pub open spec fn holds_nul(list: Seq<Seq<u8>>) -> bool {
    exists|i: int| 0 <= i < list.len() && (#[trigger] list[i]).contains(0)
}

/// The components of a caller's path under `root`. `quoted` is the path as
/// messages show it.
pub open spec fn components_under(root: Seq<u8>, rel: Seq<u8>, quoted: Seq<char>) -> Result<
    Seq<Seq<u8>>,
    error::FaultView,
> {
    let list = if absolute(rel) {
        below_root(root, rel)
    } else {
        Some(names(rel))
    };
    match list {
        None => Err(error::fault(ErrorKind::Permission, "path escapes workspace: "@ + quoted)),
        Some(list) => if climbs(list) {
            Err(error::fault(ErrorKind::Permission, "path traversal rejected: "@ + quoted))
        } else if holds_nul(list) {
            Err(
                error::fault(
                    ErrorKind::Malformed,
                    "path component contains a NUL byte: "@ + quoted,
                ),
            )
        } else if list.len() > MAX_COMPONENTS {
            Err(
                error::fault(
                    ErrorKind::Oversized,
                    quoted + " exceeds the 4096-component walk bound"@,
                ),
            )
        } else {
            Ok(list)
        },
    }
}

fn holds(list: &Vec<Vec<u8>>, up: bool) -> (r: bool)
    ensures
        r == if up {
            climbs(parts(list@))
        } else {
            holds_nul(parts(list@))
        },
{
    let ghost all = parts(list@);
    let mut i: usize = 0;
    while i < list.len()
        invariant
            i <= list.len(),
            all == parts(list@),
            up ==> forall|j: int| 0 <= j < i ==> all[j] != dotdot(),
            !up ==> forall|j: int| 0 <= j < i ==> !(#[trigger] all[j]).contains(0),
        decreases list.len() - i,
    {
        let name: &[u8] = list[i].as_slice();
        proof {
            assert(all[i as int] == name@);
        }
        if up {
            if is_parent(name) {
                return true;
            }
        } else {
            let mut k: usize = 0;
            while k < name.len()
                invariant
                    k <= name.len(),
                    i < list.len(),
                    !up,
                    all == parts(list@),
                    all[i as int] == name@,
                    forall|j: int| 0 <= j < k ==> name@[j] != 0,
                decreases name.len() - k,
            {
                if name[k] == 0 {
                    proof {
                        assert(name@[k as int] == 0);
                        assert(all[i as int].contains(0));
                    }
                    return true;
                }
                k = k + 1;
            }
        }
        i = i + 1;
    }
    false
}

/// Whether some component goes up.
pub fn goes_up(list: &Vec<Vec<u8>>) -> (r: bool)
    ensures
        r == climbs(parts(list@)),
{
    holds(list, true)
}

/// Splits and validates the caller's path `rel`, which is relative or names a
/// place below `root`.
pub fn lexical_components(root: &[u8], rel: &[u8], shown: &PathText) -> (r: Result<
    Vec<Vec<u8>>,
    Error,
>)
    ensures
        match components_under(root@, rel@, shown.quoted@) {
            Ok(list) => r matches Ok(v) && parts(v@) == list,
            Err(f) => r matches Err(e) && e@ == f,
        },
{
    let list: Vec<Vec<u8>> = if rel.len() > 0 && rel[0] == 47 {
        match strip_root(root, rel) {
            None => {
                return Err(
                    Error::permission(
                        text::cat2("path escapes workspace: ", shown.quoted.as_str()),
                    ),
                );
            },
            Some(list) => list,
        }
    } else {
        split_path(rel)
    };
    if goes_up(&list) {
        Err(Error::permission(text::cat2("path traversal rejected: ", shown.quoted.as_str())))
    } else if holds(&list, false) {
        Err(
            Error::malformed(
                text::cat2("path component contains a NUL byte: ", shown.quoted.as_str()),
            ),
        )
    } else if list.len() > MAX_COMPONENTS {
        Err(
            Error::oversized(
                text::cat2(shown.quoted.as_str(), " exceeds the 4096-component walk bound"),
            ),
        )
    } else {
        Ok(list)
    }
}

// ------------------------------------------------------------- link targets

/// Where a link sends a walk.
#[derive(Debug, Clone, PartialEq, Eq)]
pub enum Rebase {
    /// The walk goes on from the directory that holds the link.
    Stay(Vec<Vec<u8>>),
    /// The walk starts over at the root.
    Relocate(Vec<Vec<u8>>),
}

/// A [`Rebase`] by its contents.
pub enum RebaseView {
    Stay(Seq<Seq<u8>>),
    Relocate(Seq<Seq<u8>>),
}

impl View for Rebase {
    type V = RebaseView;

    open spec fn view(&self) -> RebaseView {
        match self {
            Rebase::Stay(c) => RebaseView::Stay(parts(c@)),
            Rebase::Relocate(c) => RebaseView::Relocate(parts(c@)),
        }
    }
}

/// Follows the names of `comps` from `base`; `..` goes up one. There is no
/// result where it would go above the top.
pub open spec fn followed(base: Seq<Seq<u8>>, comps: Seq<Seq<u8>>) -> Option<Seq<Seq<u8>>>
    decreases comps.len(),
{
    if comps.len() == 0 {
        Some(base)
    } else {
        match followed(base, comps.drop_last()) {
            None => None,
            Some(acc) => if comps.last() == dotdot() {
                if acc.len() == 0 {
                    None
                } else {
                    Some(acc.drop_last())
                }
            } else {
                Some(acc.push(comps.last()))
            },
        }
    }
}

/// The error for a target that is refused.
pub open spec fn target_fault(
    quoted: Seq<char>,
    target: Seq<char>,
    what: Seq<char>,
) -> error::FaultView {
    error::fault(ErrorKind::Permission, quoted + ": symlink target "@ + target + " "@ + what)
}

/// Where the link target leads, as seen from the directory `pos` under `root`:
/// an absolute target must lie below `root`, and none may climb above it.
/// `quoted` and `shown` are the caller's path and the target in messages.
pub open spec fn rebase_of(
    root: Seq<u8>,
    pos: Seq<Seq<u8>>,
    target: Seq<u8>,
    quoted: Seq<char>,
    shown: Seq<char>,
) -> Result<RebaseView, error::FaultView> {
    if absolute(target) {
        match below_root(root, target) {
            None => Err(target_fault(quoted, shown, "leaves the workspace root"@)),
            Some(rest) => match followed(Seq::empty(), rest) {
                None => Err(target_fault(quoted, shown, "climbs above the workspace root"@)),
                Some(acc) => Ok(RebaseView::Relocate(acc)),
            },
        }
    } else {
        match followed(pos, names(target)) {
            None => Err(target_fault(quoted, shown, "climbs above the workspace root"@)),
            Some(acc) => if climbs(names(target)) {
                Ok(RebaseView::Relocate(acc))
            } else {
                Ok(RebaseView::Stay(names(target)))
            },
        }
    }
}

proof fn lemma_followed_fail(base: Seq<Seq<u8>>, comps: Seq<Seq<u8>>, n: int)
    requires
        0 <= n <= comps.len(),
        followed(base, comps.take(n)) is None,
    ensures
        followed(base, comps) is None,
    decreases comps.len() - n,
{
    if n == comps.len() {
        assert(comps.take(n) =~= comps);
    } else {
        assert(comps.take(n + 1).drop_last() =~= comps.take(n));
        lemma_followed_fail(base, comps, n + 1);
    }
}

/// Follows `comps` from the position in `acc`; false where that climbs too far.
fn follow(acc: &mut Vec<Vec<u8>>, comps: &Vec<Vec<u8>>) -> (r: bool)
    ensures
        match followed(parts(old(acc)@), parts(comps@)) {
            Some(end) => r && parts(final(acc)@) == end,
            None => !r,
        },
{
    let ghost all = parts(comps@);
    let ghost base = parts(acc@);
    let mut i: usize = 0;
    proof {
        assert(all.take(0) =~= Seq::<Seq<u8>>::empty());
    }
    while i < comps.len()
        invariant
            i <= comps.len(),
            all == parts(comps@),
            base == parts(old(acc)@),
            followed(base, all.take(i as int)) == Some(parts(acc@)),
        decreases comps.len() - i,
    {
        let comp: &[u8] = comps[i].as_slice();
        let ghost before = parts(acc@);
        proof {
            assert(all.take(i as int + 1).drop_last() =~= all.take(i as int));
            assert(all.take(i as int + 1).last() == comp@);
        }
        if is_parent(comp) {
            if acc.len() == 0 {
                proof {
                    lemma_followed_fail(base, all, i as int + 1);
                }
                return false;
            }
            let _up: Option<Vec<u8>> = acc.pop();
            proof {
                assert(parts(acc@) =~= before.drop_last());
            }
        } else {
            acc.push(copy_name(comp));
            proof {
                assert(parts(acc@) =~= before.push(comp@));
            }
        }
        i = i + 1;
    }
    proof {
        assert(all.take(i as int) =~= all);
    }
    true
}

fn target_error(rel: &PathText, target: &str, what: &str) -> (r: Error)
    ensures
        r@ == target_fault(rel.quoted@, target@, what@),
{
    Error::permission(text::cat5(rel.quoted.as_str(), ": symlink target ", target, " ", what))
}

/// Where the link target leads, as seen from the directory `pos` under `root`.
pub fn rebase_target(
    root: &[u8],
    rel: &PathText,
    pos: &Vec<Vec<u8>>,
    target: &[u8],
    shown: &str,
) -> (r: Result<Rebase, Error>)
    ensures
        match rebase_of(root@, parts(pos@), target@, rel.quoted@, shown@) {
            Ok(b) => r matches Ok(v) && v@ == b,
            Err(f) => r matches Err(e) && e@ == f,
        },
{
    if target.len() > 0 && target[0] == 47 {
        match strip_root(root, target) {
            None => Err(target_error(rel, shown, "leaves the workspace root")),
            Some(rest) => {
                let mut acc: Vec<Vec<u8>> = Vec::new();
                proof {
                    assert(parts(acc@) =~= Seq::<Seq<u8>>::empty());
                }
                if follow(&mut acc, &rest) {
                    Ok(Rebase::Relocate(acc))
                } else {
                    Err(target_error(rel, shown, "climbs above the workspace root"))
                }
            },
        }
    } else {
        let comps: Vec<Vec<u8>> = split_path(target);
        let mut acc: Vec<Vec<u8>> = names_from(pos, 0);
        proof {
            assert(parts(pos@).skip(0) =~= parts(pos@));
        }
        if !follow(&mut acc, &comps) {
            Err(target_error(rel, shown, "climbs above the workspace root"))
        } else if goes_up(&comps) {
            Ok(Rebase::Relocate(acc))
        } else {
            Ok(Rebase::Stay(comps))
        }
    }
}

// --------------------------------------------------------------------- laws

/// A name that can be opened in a directory without leaving it: not empty,
/// neither `.` nor `..`, and without `/`.
pub open spec fn plain(comp: Seq<u8>) -> bool {
    comp.len() > 0 && comp != dot() && comp != dotdot() && !comp.contains(47)
}

/// All names of `list` are [`plain`].
pub open spec fn all_plain(list: Seq<Seq<u8>>) -> bool {
    forall|i: int| 0 <= i < list.len() ==> plain(#[trigger] list[i])
}

/// All names of `list` are plain or `..`.
pub open spec fn plain_or_up(list: Seq<Seq<u8>>) -> bool {
    forall|i: int| 0 <= i < list.len() ==> plain(#[trigger] list[i]) || list[i] == dotdot()
}

proof fn lemma_slash_index_props(s: Seq<u8>)
    ensures
        0 <= slash_index(s) <= s.len(),
        forall|j: int| 0 <= j < slash_index(s) ==> s[j] != 47,
    decreases s.len(),
{
    if s.len() > 0 && s[0] != 47 {
        let t = s.drop_first();
        lemma_slash_index_props(t);
        assert forall|j: int| 0 <= j < slash_index(s) implies s[j] != 47 by {
            if j > 0 {
                assert(s[j] == t[j - 1]);
            }
        }
    }
}

/// What a path is split into is plain, but for `..`.
pub proof fn lemma_names_plain(s: Seq<u8>)
    ensures
        plain_or_up(names(s)),
    decreases s.len(),
{
    lemma_slash_index_props(s);
    let n = slash_index(s);
    if n < s.len() {
        lemma_names_plain(s.skip(n + 1));
        assert(!s.take(n).contains(47));
    } else {
        assert(!s.contains(47));
    }
}

proof fn lemma_below_plain(root: Seq<u8>, path: Seq<u8>)
    ensures
        below_root(root, path) matches Some(rest) ==> plain_or_up(rest),
{
    lemma_names_plain(path);
    if let Some(rest) = below_root(root, path) {
        let k = names(root).len() as int;
        assert forall|i: int| 0 <= i < rest.len() implies plain(#[trigger] rest[i]) || rest[i]
            == dotdot() by {
            assert(rest[i] == names(path)[i + k]);
        }
    }
}

proof fn lemma_followed_plain(base: Seq<Seq<u8>>, comps: Seq<Seq<u8>>)
    requires
        all_plain(base),
        plain_or_up(comps),
    ensures
        followed(base, comps) matches Some(acc) ==> all_plain(acc),
    decreases comps.len(),
{
    if comps.len() > 0 {
        assert(plain_or_up(comps.drop_last())) by {
            assert forall|i: int| 0 <= i < comps.drop_last().len() implies plain(
                #[trigger] comps.drop_last()[i],
            ) || comps.drop_last()[i] == dotdot() by {
                assert(comps.drop_last()[i] == comps[i]);
            }
        }
        lemma_followed_plain(base, comps.drop_last());
    }
}

/// Every component that a caller's path is accepted with is a plain name
/// without NUL, and there are at most [`MAX_COMPONENTS`] of them.
pub proof fn law_accepted_paths_stay_below(root: Seq<u8>, rel: Seq<u8>, quoted: Seq<char>)
    ensures
        match components_under(root, rel, quoted) {
            Ok(list) => all_plain(list) && !holds_nul(list) && list.len() <= MAX_COMPONENTS,
            Err(_) => true,
        },
{
    lemma_names_plain(rel);
    lemma_below_plain(root, rel);
    if let Ok(list) = components_under(root, rel, quoted) {
        assert forall|i: int| 0 <= i < list.len() implies plain(#[trigger] list[i]) by {
            assert(list[i] != dotdot());
        }
    }
}

/// A link sends the walk only to plain names, counted from a directory that the
/// walk holds: the one of the link or the root.
pub proof fn law_links_stay_below(
    root: Seq<u8>,
    pos: Seq<Seq<u8>>,
    target: Seq<u8>,
    quoted: Seq<char>,
    shown: Seq<char>,
)
    requires
        all_plain(pos),
    ensures
        match rebase_of(root, pos, target, quoted, shown) {
            Ok(RebaseView::Stay(list)) => all_plain(list),
            Ok(RebaseView::Relocate(list)) => all_plain(list),
            Err(_) => true,
        },
{
    let comps = names(target);
    lemma_names_plain(target);
    lemma_below_plain(root, target);
    lemma_followed_plain(pos, comps);
    if let Some(rest) = below_root(root, target) {
        lemma_followed_plain(Seq::empty(), rest);
    }
    if !climbs(comps) {
        assert forall|i: int| 0 <= i < comps.len() implies plain(#[trigger] comps[i]) by {
            assert(comps[i] != dotdot());
        }
    }
}

// -------------------------------------------------------------- the machine

/// What a walk waits for.
#[derive(Debug, Clone, Copy, PartialEq, Eq, Structural)]
pub enum Stage {
    /// The root is being opened.
    Root,
    /// A component is being opened.
    Open,
    /// An entry that is no directory is being looked at.
    Inspect,
    /// The target of a link is being read.
    Link,
    /// The walk is over.
    Finished,
}

/// Why a component could not be opened.
#[derive(Debug, Clone, Copy, PartialEq, Eq, Structural)]
pub enum OpenFault {
    /// The entry is a link, and links are not followed (`ELOOP`).
    Link,
    /// The entry is no directory (`ENOTDIR`); some systems say so of a link.
    NotDirectory,
    /// There is no such entry (`ENOENT`).
    Missing,
    /// Access is denied (`EACCES`).
    Denied,
    /// Anything else.
    Other,
}

/// What came of a [`Step`]. `text` is what the system says of a failure.
#[derive(Debug, Clone, PartialEq, Eq)]
pub enum Event {
    /// The root was opened.
    RootOpened,
    /// The component was opened.
    Opened,
    /// The component was not opened.
    OpenFailed { fault: OpenFault, text: String },
    /// The entry was looked at.
    Inspected { symlink: bool },
    /// The target of the link, and the same quoted.
    LinkRead { target: Vec<u8>, quoted: String },
    /// The target could not be read.
    LinkFailed { text: String },
}

/// What is to be done next.
#[derive(Debug, Clone, PartialEq, Eq)]
pub enum Step {
    /// Open the root: it becomes the current directory.
    OpenRoot,
    /// Open `name` in the current directory, without following it: as the
    /// caller wants it where it is the `last` one, else as a directory. With
    /// `descend`, the entry opened last becomes the current directory first.
    Open { name: Vec<u8>, last: bool, descend: bool },
    /// Look at the entry that was not opened, without following it.
    Inspect,
    /// Read the target of the entry that was not opened.
    ReadLink,
    /// Done: the entry opened last is the one named.
    Entry,
    /// Done: the current directory is the entry named.
    Directory,
    /// Done: the walk is refused.
    Failed(Error),
}

/// A [`Step`] by its contents.
pub enum StepView {
    OpenRoot,
    Open { name: Seq<u8>, last: bool, descend: bool },
    Inspect,
    ReadLink,
    Entry,
    Directory,
    Failed(error::FaultView),
}

impl View for Step {
    type V = StepView;

    open spec fn view(&self) -> StepView {
        match self {
            Step::OpenRoot => StepView::OpenRoot,
            Step::Open { name, last, descend } => StepView::Open {
                name: name@,
                last: *last,
                descend: *descend,
            },
            Step::Inspect => StepView::Inspect,
            Step::ReadLink => StepView::ReadLink,
            Step::Entry => StepView::Entry,
            Step::Directory => StepView::Directory,
            Step::Failed(e) => StepView::Failed(e@),
        }
    }
}

/// A walk by its contents.
pub struct WalkView {
    pub root: Seq<u8>,
    /// The caller's path, as messages show it.
    pub shown: Seq<char>,
    pub quoted: Seq<char>,
    /// The names still to be opened.
    pub pending: Seq<Seq<u8>>,
    /// The names that lead from the root to the current directory.
    pub pos: Seq<Seq<u8>>,
    /// The name opened last.
    pub comp: Seq<u8>,
    /// What the system said of the last failure.
    pub said: Seq<char>,
    /// Links followed.
    pub hops: nat,
    pub stage: Stage,
}

/// The walk is over, with this last step.
pub open spec fn finish(w: WalkView, step: StepView) -> (WalkView, StepView) {
    (WalkView { stage: Stage::Finished, ..w }, step)
}

/// The walk takes the next name, or ends in the directory it has reached.
pub open spec fn resume(w: WalkView, descend: bool) -> (WalkView, StepView) {
    if w.pending.len() == 0 {
        finish(w, StepView::Directory)
    } else {
        (
            WalkView {
                comp: w.pending[0],
                pending: w.pending.skip(1),
                stage: Stage::Open,
                ..w
            },
            StepView::Open { name: w.pending[0], last: w.pending.len() == 1, descend },
        )
    }
}

/// A component was opened.
pub open spec fn after_open(w: WalkView) -> (WalkView, StepView) {
    if w.pending.len() == 0 {
        finish(w, StepView::Entry)
    } else {
        resume(WalkView { pos: w.pos.push(w.comp), ..w }, true)
    }
}

/// The error for a component that could not be opened and is no link.
pub open spec fn open_fault(w: WalkView, fault: OpenFault, said: Seq<char>) -> error::FaultView {
    let last = w.pending.len() == 0;
    if fault == OpenFault::Missing && last {
        error::fault(ErrorKind::NotFound, w.shown)
    } else if fault == OpenFault::NotDirectory || !last {
        error::fault(ErrorKind::Permission, "parent resolution failed: "@ + w.quoted)
    } else {
        error::fault(ErrorKind::Internal, w.shown + ": "@ + said)
    }
}

/// The component is a link: it is followed, or the walk has followed enough.
pub open spec fn meet_link(w: WalkView) -> (WalkView, StepView) {
    let v = WalkView { hops: w.hops + 1, ..w };
    if v.hops > MAX_SYMLINK_HOPS {
        finish(
            v,
            StepView::Failed(
                error::fault(
                    ErrorKind::Permission,
                    w.quoted
                        + ": symlink resolution exceeded the 8-hop bound (possible symlink loop)"@,
                ),
            ),
        )
    } else {
        (WalkView { stage: Stage::Link, ..v }, StepView::ReadLink)
    }
}

/// A component was not opened.
pub open spec fn after_failure(w: WalkView, fault: OpenFault, said: Seq<char>) -> (
    WalkView,
    StepView,
) {
    if fault == OpenFault::Link {
        meet_link(w)
    } else if fault == OpenFault::NotDirectory {
        (WalkView { said, stage: Stage::Inspect, ..w }, StepView::Inspect)
    } else {
        finish(w, StepView::Failed(open_fault(w, fault, said)))
    }
}

/// An entry that is no directory was looked at.
pub open spec fn after_inspect(w: WalkView, symlink: bool) -> (WalkView, StepView) {
    if symlink {
        meet_link(w)
    } else {
        finish(w, StepView::Failed(open_fault(w, OpenFault::NotDirectory, w.said)))
    }
}

/// The target of a link was read.
pub open spec fn after_link(w: WalkView, target: Seq<u8>, shown: Seq<char>) -> (
    WalkView,
    StepView,
) {
    match rebase_of(w.root, w.pos, target, w.quoted, shown) {
        Err(f) => finish(w, StepView::Failed(f)),
        Ok(RebaseView::Stay(names)) => resume(
            WalkView { pending: names + w.pending, ..w },
            false,
        ),
        Ok(RebaseView::Relocate(names)) => (
            WalkView {
                pending: names + w.pending,
                pos: Seq::empty(),
                stage: Stage::Root,
                ..w
            },
            StepView::OpenRoot,
        ),
    }
}

/// The event answers what the walk waits for.
pub open spec fn awaited(stage: Stage, event: Event) -> bool {
    match event {
        Event::RootOpened => stage == Stage::Root,
        Event::Opened => stage == Stage::Open,
        Event::OpenFailed { .. } => stage == Stage::Open,
        Event::Inspected { .. } => stage == Stage::Inspect,
        Event::LinkRead { .. } => stage == Stage::Link,
        Event::LinkFailed { .. } => stage == Stage::Link,
    }
}

/// The walk after an event it waited for, and what is to be done next.
pub open spec fn next(w: WalkView, event: Event) -> (WalkView, StepView) {
    match event {
        Event::RootOpened => resume(w, false),
        Event::Opened => after_open(w),
        Event::OpenFailed { fault, text } => after_failure(w, fault, text@),
        Event::Inspected { symlink } => after_inspect(w, symlink),
        Event::LinkRead { target, quoted } => after_link(w, target@, quoted@),
        Event::LinkFailed { text } => finish(
            w,
            StepView::Failed(error::fault(ErrorKind::Internal, w.shown + ": "@ + text@)),
        ),
    }
}

/// The walk before its first event.
pub open spec fn started(root: Seq<u8>, rel: PathText, names: Seq<Seq<u8>>) -> WalkView {
    WalkView {
        root,
        shown: rel.shown@,
        quoted: rel.quoted@,
        pending: names,
        pos: Seq::empty(),
        comp: Seq::empty(),
        said: Seq::empty(),
        hops: 0,
        stage: Stage::Root,
    }
}

/// What holds of every walk: it holds plain names only, and it has followed no
/// more links than it may.
pub open spec fn sound(w: WalkView) -> bool {
    &&& all_plain(w.pending)
    &&& all_plain(w.pos)
    &&& w.stage == Stage::Open || w.stage == Stage::Inspect ==> plain(w.comp)
    &&& w.hops <= MAX_SYMLINK_HOPS + 1
    &&& w.stage != Stage::Finished ==> w.hops <= MAX_SYMLINK_HOPS
}

/// A step that opens something opens a plain name.
pub open spec fn plain_step(step: StepView) -> bool {
    step matches StepView::Open { name, .. } ==> plain(name)
}

proof fn lemma_resume_sound(w: WalkView, descend: bool)
    requires
        all_plain(w.pending),
        all_plain(w.pos),
        w.hops <= MAX_SYMLINK_HOPS,
    ensures
        sound(resume(w, descend).0),
        plain_step(resume(w, descend).1),
{
    if w.pending.len() > 0 {
        let rest = w.pending.skip(1);
        assert(plain(w.pending[0]));
        assert forall|i: int| 0 <= i < rest.len() implies plain(#[trigger] rest[i]) by {
            assert(plain(w.pending[i + 1]));
        }
    }
}

/// Whatever event a walk gets, it goes on holding plain names only, and opens
/// plain names only.
pub proof fn law_a_walk_stays_below(w: WalkView, event: Event)
    requires
        sound(w),
        awaited(w.stage, event),
    ensures
        sound(next(w, event).0),
        plain_step(next(w, event).1),
{
    match event {
        Event::RootOpened => {
            lemma_resume_sound(w, false);
        },
        Event::Opened => {
            if w.pending.len() > 0 {
                let v = WalkView { pos: w.pos.push(w.comp), ..w };
                assert(all_plain(v.pos));
                lemma_resume_sound(v, true);
            }
        },
        Event::LinkRead { target, quoted } => {
            law_links_stay_below(w.root, w.pos, target@, w.quoted, quoted@);
            match rebase_of(w.root, w.pos, target@, w.quoted, quoted@) {
                Ok(RebaseView::Stay(names)) => {
                    let v = WalkView { pending: names + w.pending, ..w };
                    assert(all_plain(v.pending));
                    lemma_resume_sound(v, false);
                },
                Ok(RebaseView::Relocate(names)) => {
                    assert(all_plain(names + w.pending));
                },
                Err(_) => {},
            }
        },
        _ => {},
    }
}

/// How far a stage is from the next name.
pub open spec fn rank(stage: Stage) -> int {
    match stage {
        Stage::Link => 4,
        Stage::Root => 3,
        Stage::Open => 2,
        Stage::Inspect => 1,
        Stage::Finished => 0,
    }
}

/// Every event brings a walk nearer to its end: it follows one link more, or
/// has fewer names left, or is a stage further with the same name; after a link
/// is met its target is read at once.
pub proof fn law_every_event_counts(w: WalkView, event: Event)
    requires
        sound(w),
        awaited(w.stage, event),
    ensures
        ({
            let v = next(w, event).0;
            ||| v.stage == Stage::Finished
            ||| v.hops > w.hops && v.stage == Stage::Link
            ||| v.hops == w.hops && w.stage == Stage::Link && rank(v.stage) < rank(w.stage)
            ||| v.hops == w.hops && v.pending.len() < w.pending.len()
            ||| v.hops == w.hops && v.pending == w.pending && rank(v.stage) < rank(w.stage)
        }),
{
}

/// The walk after all the events.
pub open spec fn run(w: WalkView, events: Seq<Event>) -> WalkView
    decreases events.len(),
{
    if events.len() == 0 {
        w
    } else {
        next(run(w, events.drop_last()), events.last()).0
    }
}

/// Every event was one that the walk waited for.
pub open spec fn answers(w: WalkView, events: Seq<Event>) -> bool
    decreases events.len(),
{
    events.len() == 0 || (answers(w, events.drop_last()) && awaited(
        run(w, events.drop_last()).stage,
        events.last(),
    ))
}

/// How many of the events brought the target of a link.
pub open spec fn links_read(events: Seq<Event>) -> nat
    decreases events.len(),
{
    if events.len() == 0 {
        0
    } else {
        links_read(events.drop_last()) + if events.last() is LinkRead {
            1nat
        } else {
            0nat
        }
    }
}

/// A walk reads the targets of at most eight links, whatever links it meets: a
/// loop of links is refused.
pub proof fn law_a_walk_follows_few_links(w: WalkView, events: Seq<Event>)
    requires
        sound(w),
        w.stage == Stage::Root,
        w.hops == 0,
        answers(w, events),
    ensures
        sound(run(w, events)),
        links_read(events) <= MAX_SYMLINK_HOPS,
{
    lemma_links(w, events);
}

proof fn lemma_links(w: WalkView, events: Seq<Event>)
    requires
        sound(w),
        w.stage == Stage::Root,
        w.hops == 0,
        answers(w, events),
    ensures
        sound(run(w, events)),
        links_read(events) + (if run(w, events).stage == Stage::Link {
            1nat
        } else {
            0nat
        }) <= run(w, events).hops,
        links_read(events) <= MAX_SYMLINK_HOPS,
    decreases events.len(),
{
    if events.len() > 0 {
        lemma_links(w, events.drop_last());
        law_a_walk_stays_below(run(w, events.drop_last()), events.last());
    }
}

/// A walk from the root to an entry below it.
#[derive(Debug, Clone, PartialEq, Eq)]
pub struct UnixWalk {
    root: Vec<u8>,
    rel: PathText,
    pending: Vec<Vec<u8>>,
    pos: Vec<Vec<u8>>,
    comp: Vec<u8>,
    said: String,
    hops: usize,
    stage: Stage,
}

impl View for UnixWalk {
    type V = WalkView;

    closed spec fn view(&self) -> WalkView {
        WalkView {
            root: self.root@,
            shown: self.rel.shown@,
            quoted: self.rel.quoted@,
            pending: parts(self.pending@),
            pos: parts(self.pos@),
            comp: self.comp@,
            said: self.said@,
            hops: self.hops as nat,
            stage: self.stage,
        }
    }
}

impl UnixWalk {
    /// Starts a walk to `rel` under the canonical directory `root`; its first
    /// step is [`Step::OpenRoot`]. A path that would leave the root is refused
    /// before anything is opened.
    pub fn begin(root: &[u8], rel_bytes: &[u8], rel: PathText) -> (r: Result<UnixWalk, Error>)
        ensures
            match components_under(root@, rel_bytes@, rel.quoted@) {
                Ok(names) => r matches Ok(w) && w@ == started(root@, rel, names) && sound(w@),
                Err(f) => r matches Err(e) && e@ == f,
            },
    {
        proof {
            law_accepted_paths_stay_below(root@, rel_bytes@, rel.quoted@);
        }
        match lexical_components(root, rel_bytes, &rel) {
            Err(e) => Err(e),
            Ok(names) => {
                let w: UnixWalk = UnixWalk {
                    root: copy_name(root),
                    rel,
                    pending: names,
                    pos: Vec::new(),
                    comp: Vec::new(),
                    said: String::new(),
                    hops: 0,
                    stage: Stage::Root,
                };
                proof {
                    assert(w@.pos =~= Seq::<Seq<u8>>::empty());
                    assert(w@.comp =~= Seq::<u8>::empty());
                    assert(w@.said =~= Seq::<char>::empty());
                }
                Ok(w)
            },
        }
    }

    /// What the walk waits for.
    pub fn stage(&self) -> (r: Stage)
        ensures
            r == self@.stage,
    {
        self.stage
    }

    fn fail(&mut self, e: Error) -> (r: Step)
        ensures
            (final(self)@, r@) == finish(old(self)@, StepView::Failed(e@)),
    {
        self.stage = Stage::Finished;
        Step::Failed(e)
    }

    fn resume(&mut self, descend: bool) -> (r: Step)
        ensures
            (final(self)@, r@) == resume(old(self)@, descend),
    {
        if self.pending.len() == 0 {
            self.stage = Stage::Finished;
            return Step::Directory;
        }
        let ghost before = self@;
        self.comp = self.pending.remove(0);
        self.stage = Stage::Open;
        proof {
            assert(self@.pending =~= before.pending.skip(1));
            assert(self@.comp == before.pending[0]);
        }
        Step::Open {
            name: copy_name(self.comp.as_slice()),
            last: self.pending.len() == 0,
            descend,
        }
    }

    fn opened(&mut self) -> (r: Step)
        ensures
            (final(self)@, r@) == after_open(old(self)@),
    {
        if self.pending.len() == 0 {
            self.stage = Stage::Finished;
            return Step::Entry;
        }
        let ghost before = self@;
        self.pos.push(copy_name(self.comp.as_slice()));
        proof {
            assert(self@.pos =~= before.pos.push(before.comp));
        }
        self.resume(true)
    }

    fn open_error(&self, fault: OpenFault, said: &str) -> (r: Error)
        ensures
            r@ == open_fault(self@, fault, said@),
    {
        let last: bool = self.pending.len() == 0;
        if fault == OpenFault::Missing && last {
            Error::not_found(self.rel.shown.as_str().to_owned())
        } else if fault == OpenFault::NotDirectory || !last {
            Error::permission(
                text::cat2("parent resolution failed: ", self.rel.quoted.as_str()),
            )
        } else {
            Error::internal(text::cat3(self.rel.shown.as_str(), ": ", said))
        }
    }

    fn meet_link(&mut self) -> (r: Step)
        requires
            old(self)@.hops <= MAX_SYMLINK_HOPS,
        ensures
            (final(self)@, r@) == meet_link(old(self)@),
    {
        self.hops = self.hops + 1;
        if self.hops > MAX_SYMLINK_HOPS {
            let m: String = text::cat2(
                self.rel.quoted.as_str(),
                ": symlink resolution exceeded the 8-hop bound (possible symlink loop)",
            );
            return self.fail(Error::permission(m));
        }
        self.stage = Stage::Link;
        Step::ReadLink
    }

    fn open_failed(&mut self, fault: OpenFault, said: String) -> (r: Step)
        requires
            old(self)@.hops <= MAX_SYMLINK_HOPS,
        ensures
            (final(self)@, r@) == after_failure(old(self)@, fault, said@),
    {
        if fault == OpenFault::Link {
            self.meet_link()
        } else if fault == OpenFault::NotDirectory {
            self.said = said;
            self.stage = Stage::Inspect;
            Step::Inspect
        } else {
            let e: Error = self.open_error(fault, said.as_str());
            self.fail(e)
        }
    }

    /// Puts `names` in front of what is still to be opened.
    fn put_front(&mut self, names: Vec<Vec<u8>>)
        ensures
            final(self)@ == (WalkView {
                pending: parts(names@) + old(self)@.pending,
                ..old(self)@
            }),
    {
        let ghost front = parts(names@);
        let ghost before = self@;
        let mut all: Vec<Vec<u8>> = names;
        all.append(&mut self.pending);
        self.pending = all;
        proof {
            assert(self@.pending =~= front + before.pending);
        }
    }

    fn link_read(&mut self, target: &[u8], shown: &str) -> (r: Step)
        ensures
            (final(self)@, r@) == after_link(old(self)@, target@, shown@),
    {
        match rebase_target(self.root.as_slice(), &self.rel, &self.pos, target, shown) {
            Err(e) => self.fail(e),
            Ok(Rebase::Stay(names)) => {
                self.put_front(names);
                self.resume(false)
            },
            Ok(Rebase::Relocate(names)) => {
                self.put_front(names);
                self.pos = Vec::new();
                self.stage = Stage::Root;
                proof {
                    assert(self@.pos =~= Seq::<Seq<u8>>::empty());
                }
                Step::OpenRoot
            },
        }
    }

    /// Takes the event that the walk waited for, and says what is to be done
    /// next.
    pub fn advance(&mut self, event: Event) -> (r: Step)
        requires
            sound(old(self)@),
            awaited(old(self)@.stage, event),
        ensures
            (final(self)@, r@) == next(old(self)@, event),
            sound(final(self)@),
            plain_step(r@),
    {
        proof {
            law_a_walk_stays_below(self@, event);
        }
        match event {
            Event::RootOpened => self.resume(false),
            Event::Opened => self.opened(),
            Event::OpenFailed { fault, text } => self.open_failed(fault, text),
            Event::Inspected { symlink } => if symlink {
                self.meet_link()
            } else {
                let e: Error = self.open_error(OpenFault::NotDirectory, self.said.as_str());
                self.fail(e)
            },
            Event::LinkRead { target, quoted } => self.link_read(
                target.as_slice(),
                quoted.as_str(),
            ),
            Event::LinkFailed { text } => {
                let e: Error = Error::internal(
                    text::cat3(self.rel.shown.as_str(), ": ", text.as_str()),
                );
                self.fail(e)
            },
        }
    }
}

// ------------------------------------------------------------------ the root

/// Why the root could not be opened.
#[derive(Debug, Clone, Copy, PartialEq, Eq, Structural)]
pub enum RootFault {
    /// Its path holds a NUL.
    Nul,
    /// It is a link or no directory.
    Swapped,
    /// It is not there.
    Missing,
    /// Anything else.
    Other,
}

/// The error for a root that could not be opened; `said` is what the system
/// says.
pub open spec fn root_fault(
    shown: Seq<char>,
    quoted: Seq<char>,
    fault: RootFault,
    said: Seq<char>,
) -> error::FaultView {
    match fault {
        RootFault::Nul => error::fault(
            ErrorKind::Malformed,
            "workspace root "@ + quoted + " contains a NUL byte"@,
        ),
        RootFault::Swapped => error::fault(
            ErrorKind::Permission,
            "workspace root "@ + shown + " was swapped for a symlink or non-directory"@,
        ),
        RootFault::Missing => error::fault(
            ErrorKind::NotFound,
            "workspace root "@ + shown + ": "@ + said,
        ),
        RootFault::Other => error::fault(
            ErrorKind::Internal,
            "workspace root "@ + shown + ": "@ + said,
        ),
    }
}

/// The error for a root that could not be opened.
pub fn root_error(root: &PathText, fault: RootFault, said: &str) -> (r: Error)
    ensures
        r@ == root_fault(root.shown@, root.quoted@, fault, said@),
{
    match fault {
        RootFault::Nul => Error::malformed(
            text::cat3("workspace root ", root.quoted.as_str(), " contains a NUL byte"),
        ),
        RootFault::Swapped => Error::permission(
            text::cat3(
                "workspace root ",
                root.shown.as_str(),
                " was swapped for a symlink or non-directory",
            ),
        ),
        RootFault::Missing => Error::not_found(
            text::cat4("workspace root ", root.shown.as_str(), ": ", said),
        ),
        RootFault::Other => Error::internal(
            text::cat4("workspace root ", root.shown.as_str(), ": ", said),
        ),
    }
}

/// The names of a path stand between slashes; empty ones and single dots are none.
pub proof fn law_names_stand_between_slashes(name: Seq<u8>, rest: Seq<u8>)
    requires
        !name.contains(47),
    ensures
        name.len() == 0 || name == seq![46u8] ==> names(name) == Seq::<Seq<u8>>::empty() && names(
            name + seq![47u8] + rest,
        ) == names(rest),
        name.len() > 0 && name != seq![46u8] ==> names(name) == seq![name] && names(
            name + seq![47u8] + rest,
        ) == seq![name] + names(rest),
{
    assert forall|j: int| 0 <= j < name.len() implies name[j] != 47 by {
        assert(name.contains(name[j]));
    }
    lemma_slash_index(name, name.len() as int);
    let s = name + seq![47u8] + rest;
    assert forall|j: int| 0 <= j < name.len() implies s[j] != 47 by {
        assert(s[j] == name[j]);
    }
    assert(s[name.len() as int] == 47);
    lemma_slash_index(s, name.len() as int);
    assert(s.take(name.len() as int) =~= name);
    assert(s.skip(name.len() as int + 1) =~= rest);
    if idle(name) {
        assert(Seq::<Seq<u8>>::empty() + names(rest) =~= names(rest));
    }
}

/// A path lies below a root where both are absolute and its names begin with those
/// of the root; what is below is the names that follow.
pub proof fn law_what_lies_below_a_root(root: Seq<u8>, path: Seq<u8>, rest: Seq<Seq<u8>>)
    ensures
        absolute(root) && absolute(path) && names(path) == names(root) + rest ==> below_root(
            root,
            path,
        ) == Some(rest),
        !absolute(root) || !absolute(path) ==> below_root(root, path) is None,
        below_root(root, path) matches Some(tail) ==> names(path) == names(root) + tail,
        absolute(path) <==> path.len() > 0 && path[0] == 47,
{
    if names(path) == names(root) + rest {
        assert(names(path).take(names(root).len() as int) =~= names(root));
        assert(names(path).skip(names(root).len() as int) =~= rest);
    }
    if let Some(tail) = below_root(root, path) {
        assert(names(path) =~= names(root) + tail);
    }
}

/// Names that a caller may give: none goes up, and none holds a NUL.
pub open spec fn fine_names(list: Seq<Seq<u8>>) -> bool {
    forall|i: int|
        0 <= i < list.len() ==> (#[trigger] list[i]) != seq![46u8, 46u8] && !list[i].contains(0)
}

/// Which paths of a caller are accepted: their names, where none goes up, none
/// holds a NUL and there are no more than 4096. An absolute path counts from the
/// root.
pub proof fn law_which_paths_are_accepted(
    root: Seq<u8>,
    rel: Seq<u8>,
    quoted: Seq<char>,
    list: Seq<Seq<u8>>,
)
    requires
        absolute(rel) ==> below_root(root, rel) == Some(list),
        !absolute(rel) ==> list == names(rel),
    ensures
        fine_names(list) && list.len() <= 4096 ==> components_under(root, rel, quoted) == Ok::<
            Seq<Seq<u8>>,
            error::FaultView,
        >(list),
        !fine_names(list) || list.len() > 4096 ==> components_under(root, rel, quoted) is Err,
        list.contains(seq![46u8, 46u8]) ==> (components_under(root, rel, quoted) matches Err(f)
            && f.kind == ErrorKind::Permission),
        fine_names(list) && list.len() > 4096 ==> (components_under(root, rel, quoted) matches Err(f)
            && f.kind == ErrorKind::Oversized),
{
    if fine_names(list) {
        if climbs(list) {
            let i = choose|i: int| 0 <= i < list.len() && list[i] == dotdot();
            assert(list[i] != seq![46u8, 46u8]);
        }
        if holds_nul(list) {
            let i = choose|i: int| 0 <= i < list.len() && (#[trigger] list[i]).contains(0);
            assert(!list[i].contains(0));
        }
    } else {
        let i = choose|i: int|
            0 <= i < list.len() && !((#[trigger] list[i]) != seq![46u8, 46u8] && !list[i].contains(
                0,
            ));
        assert(list.contains(list[i]));
        assert(list[i].contains(0) ==> holds_nul(list));
    }
}

/// An absolute path that does not lie below the root escapes.
pub proof fn law_paths_elsewhere_escape(root: Seq<u8>, rel: Seq<u8>, quoted: Seq<char>)
    requires
        absolute(rel),
        below_root(root, rel) is None,
    ensures
        components_under(root, rel, quoted) matches Err(f) && f.kind == ErrorKind::Permission,
{
}

/// Names are followed one by one: a name goes down, two dots go up, and nothing
/// goes above the top.
pub proof fn law_names_are_followed_one_by_one(
    base: Seq<Seq<u8>>,
    comps: Seq<Seq<u8>>,
    name: Seq<u8>,
)
    ensures
        followed(base, Seq::empty()) == Some(base),
        followed(base, comps) is None ==> followed(base, comps.push(name)) is None,
        followed(base, comps) matches Some(at) ==> {
            &&& name != seq![46u8, 46u8] ==> followed(base, comps.push(name)) == Some(at.push(name))
            &&& name == seq![46u8, 46u8] && at.len() > 0 ==> followed(base, comps.push(name))
                == Some(at.drop_last())
            &&& name == seq![46u8, 46u8] && at.len() == 0 ==> followed(base, comps.push(name)) is None
        },
{
    assert(comps.push(name).drop_last() =~= comps);
}

/// Where a link leads: a relative target from the directory of the link, an
/// absolute one from the root, and neither out of the root.
pub proof fn law_where_a_link_leads(
    root: Seq<u8>,
    pos: Seq<Seq<u8>>,
    target: Seq<u8>,
    quoted: Seq<char>,
    shown: Seq<char>,
)
    ensures
        ({
            let r = rebase_of(root, pos, target, quoted, shown);
            let up = names(target).contains(seq![46u8, 46u8]);
            let from_here = followed(pos, names(target));
            &&& !absolute(target) && from_here is None ==> (r matches Err(f) && f.kind
                == ErrorKind::Permission)
            &&& !absolute(target) && from_here is Some && !up ==> r == Ok::<
                RebaseView,
                error::FaultView,
            >(RebaseView::Stay(names(target)))
            &&& !absolute(target) && from_here is Some && up ==> r == Ok::<
                RebaseView,
                error::FaultView,
            >(RebaseView::Relocate(from_here->0))
            &&& absolute(target) && below_root(root, target) is None ==> (r matches Err(f) && f.kind
                == ErrorKind::Permission)
            &&& absolute(target) && below_root(root, target) is Some ==> {
                let from_root = followed(Seq::empty(), below_root(root, target)->0);
                &&& from_root is None ==> (r matches Err(f) && f.kind == ErrorKind::Permission)
                &&& from_root matches Some(at) ==> r == Ok::<RebaseView, error::FaultView>(
                    RebaseView::Relocate(at),
                )
            }
        }),
{
}

/// An undisturbed walk opens its names one after the other, from the root on, and
/// ends at the last one.
pub proof fn law_a_walk_opens_name_by_name(w: WalkView)
    ensures
        w.stage == Stage::Root && w.pending.len() == 0 ==> next(w, Event::RootOpened).1
            == StepView::Directory,
        w.stage == Stage::Root && w.pending.len() > 0 ==> {
            let (v, step) = next(w, Event::RootOpened);
            &&& step == (StepView::Open {
                name: w.pending[0],
                last: w.pending.len() == 1,
                descend: false,
            })
            &&& v.comp == w.pending[0]
            &&& v.pending == w.pending.skip(1)
            &&& v.pos == w.pos
            &&& v.hops == w.hops
            &&& v.stage == Stage::Open
        },
        w.stage == Stage::Open && w.pending.len() == 0 ==> next(w, Event::Opened).1
            == StepView::Entry && next(w, Event::Opened).0.stage == Stage::Finished,
        w.stage == Stage::Open && w.pending.len() > 0 ==> {
            let (v, step) = next(w, Event::Opened);
            &&& step == (StepView::Open {
                name: w.pending[0],
                last: w.pending.len() == 1,
                descend: true,
            })
            &&& v.pos == w.pos.push(w.comp)
            &&& v.comp == w.pending[0]
            &&& v.pending == w.pending.skip(1)
            &&& v.stage == Stage::Open
        },
{
}

/// A link is read and counted, up to eight of them; what it leads to is walked
/// before the names that were left.
pub proof fn law_a_link_is_walked_first(w: WalkView, text: String, target: Vec<u8>, quoted: String)
    ensures
        ({
            let (v, step) = next(w, Event::OpenFailed { fault: OpenFault::Link, text });
            &&& w.hops < 8 ==> step == StepView::ReadLink && v.hops == w.hops + 1 && v.stage
                == Stage::Link && v.pending == w.pending && v.pos == w.pos
            &&& w.hops >= 8 ==> v.stage == Stage::Finished && (step matches StepView::Failed(f)
                && f.kind == ErrorKind::Permission)
            &&& next(w, Event::Inspected { symlink: true }) == (v, step)
        }),
        ({
            let (v, step) = next(w, Event::LinkRead { target, quoted });
            match rebase_of(w.root, w.pos, target@, w.quoted, quoted@) {
                Ok(RebaseView::Stay(list)) => {
                    let all = list + w.pending;
                    &&& all.len() > 0 ==> step == (StepView::Open {
                        name: all[0],
                        last: all.len() == 1,
                        descend: false,
                    }) && v.pending == all.skip(1) && v.pos == w.pos
                    &&& all.len() == 0 ==> step == StepView::Directory
                },
                Ok(RebaseView::Relocate(list)) => step == StepView::OpenRoot && v.pending == list
                    + w.pending && v.pos == Seq::<Seq<u8>>::empty() && v.stage == Stage::Root,
                Err(f) => step == StepView::Failed(f) && v.stage == Stage::Finished,
            }
        }),
{
}

/// What could not be opened ends the walk: as not found where the last name is
/// missing, and as a failed resolution where a name before it is, or is no
/// directory.
pub proof fn law_what_cannot_be_opened_ends_the_walk(w: WalkView, fault: OpenFault, text: String)
    requires
        fault != OpenFault::Link,
    ensures
        ({
            let (v, step) = next(w, Event::OpenFailed { fault, text });
            &&& fault == OpenFault::NotDirectory ==> step == StepView::Inspect && v.stage
                == Stage::Inspect && v.said == text@
            &&& fault != OpenFault::NotDirectory ==> v.stage == Stage::Finished && step is Failed
            &&& fault == OpenFault::Missing && w.pending.len() == 0 ==> step == StepView::Failed(
                error::fault(ErrorKind::NotFound, w.shown),
            )
            &&& fault != OpenFault::NotDirectory && w.pending.len() > 0 ==> (
            step matches StepView::Failed(f) && f.kind == ErrorKind::Permission)
            &&& fault != OpenFault::NotDirectory && fault != OpenFault::Missing && w.pending.len()
                == 0 ==> (step matches StepView::Failed(f) && f.kind == ErrorKind::Internal)
        }),
        ({
            let (v, step) = next(w, Event::Inspected { symlink: false });
            &&& v.stage == Stage::Finished
            &&& step matches StepView::Failed(f) && f.kind == ErrorKind::Permission
        }),
{
}

/// A path is within a root where it is absolute and its names are those of the
/// absolute root and more, or none more.
pub proof fn law_what_is_within_a_root(root: Seq<u8>, path: Seq<u8>, rest: Seq<Seq<u8>>)
    ensures
        absolute(root) && absolute(path) && names(path) == names(root) + rest ==> within(root, path),
        within(root, path) ==> absolute(root) && absolute(path) && names(path) == names(root)
            + names(path).skip(names(root).len() as int) && names(path).len() >= names(root).len(),
        absolute(root) ==> within(root, root),
        names(path).len() < names(root).len() ==> !within(root, path),
{
    law_what_lies_below_a_root(root, path, rest);
    law_what_lies_below_a_root(root, root, Seq::empty());
    assert(names(root) + Seq::<Seq<u8>>::empty() =~= names(root));
}

} // verus!

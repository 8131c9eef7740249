//! Windows paths as UTF-16 units: which spellings a caller may use, where a
//! link target leads, and how a reparse buffer is read.
//!
//! A path is split at both separators, and repeated separators count as one.
//! Names are compared with the case of the ASCII letters folded; names that
//! differ in the case of other letters are different names. Nothing here looks
//! at a file system.
use vstd::prelude::*;
use vstd::slice::slice_subrange;

use crate::error::{Error, ErrorKind, PathText};
use crate::error;
use crate::text;

verus! {

/// How many links one walk may follow.
pub const MAX_SYMLINK_HOPS: usize = 8;

/// How many components one walk may hold at a time.
pub const MAX_COMPONENTS: usize = 4096;

/// The longest target, in units, that is read out of a reparse buffer.
pub const MAX_REPARSE_TARGET_UNITS: usize = 32768;

pub const IO_REPARSE_TAG_MOUNT_POINT: u32 = 0xA000_0003;

pub const IO_REPARSE_TAG_SYMLINK: u32 = 0xA000_000C;

pub const SYMLINK_FLAG_RELATIVE: u32 = 1;

/// Why a path is refused.
#[derive(Debug, Clone, Copy, PartialEq, Eq, Structural)]
pub enum PathHazard {
    /// `\\?\` or `\??\`.
    ExtendedPrefix,
    /// `\\.\`.
    DeviceNamespace,
    /// `\\server\share`.
    UncRoot,
    /// `C:name`: a drive without a separator behind it.
    DriveRelative,
    /// A leading separator, or `C:\`, outside the workspace.
    Rooted,
    /// The component `..`.
    ParentDir,
    /// `:` in a component.
    AlternateDataStream,
    /// NUL in a component.
    Nul,
    /// A separator in a single component.
    Separator,
    /// The path leads out of the workspace.
    OutsideWorkspace,
    /// More than [`MAX_COMPONENTS`] components.
    TooManyComponents,
}

/// The error for a hazard in the path with the quoted text `rel`.
pub open spec fn hazard_fault(hazard: PathHazard, rel: Seq<char>) -> error::FaultView {
    let rejected = "path traversal rejected: "@ + rel;
    match hazard {
        PathHazard::ExtendedPrefix => error::fault(
            ErrorKind::Permission,
            rejected + ": extended-length prefix (\\\\?\\ or \\??\\) is not accepted"@,
        ),
        PathHazard::DeviceNamespace => error::fault(
            ErrorKind::Permission,
            rejected + ": device namespace (\\\\.\\) is denied"@,
        ),
        PathHazard::UncRoot => error::fault(
            ErrorKind::Permission,
            rejected + ": UNC rooted paths are denied"@,
        ),
        PathHazard::DriveRelative => error::fault(
            ErrorKind::Permission,
            rejected + ": drive-relative path is denied"@,
        ),
        PathHazard::Rooted => error::fault(
            ErrorKind::Permission,
            rejected + ": rooted path is denied"@,
        ),
        PathHazard::ParentDir => error::fault(ErrorKind::Permission, rejected),
        PathHazard::AlternateDataStream => error::fault(
            ErrorKind::Permission,
            "alternate data stream rejected: "@ + rel,
        ),
        PathHazard::Nul => error::fault(
            ErrorKind::Malformed,
            "path component contains a NUL byte: "@ + rel,
        ),
        PathHazard::Separator => error::fault(
            ErrorKind::Permission,
            "path component contains a separator: "@ + rel,
        ),
        PathHazard::OutsideWorkspace => error::fault(
            ErrorKind::Permission,
            "path escapes workspace: "@ + rel,
        ),
        PathHazard::TooManyComponents => error::fault(
            ErrorKind::Oversized,
            rel + " exceeds the 4096-component walk bound"@,
        ),
    }
}

impl PathHazard {
    /// The error for this hazard in the path `rel`.
    pub fn into_error(self, rel: &PathText) -> (r: Error)
        ensures
            r@ == hazard_fault(self, rel.quoted@),
    {
        let rejected: String = text::cat2("path traversal rejected: ", rel.quoted.as_str());
        match self {
            PathHazard::ExtendedPrefix => Error::permission(
                text::cat2(
                    rejected.as_str(),
                    ": extended-length prefix (\\\\?\\ or \\??\\) is not accepted",
                ),
            ),
            PathHazard::DeviceNamespace => Error::permission(
                text::cat2(rejected.as_str(), ": device namespace (\\\\.\\) is denied"),
            ),
            PathHazard::UncRoot => Error::permission(
                text::cat2(rejected.as_str(), ": UNC rooted paths are denied"),
            ),
            PathHazard::DriveRelative => Error::permission(
                text::cat2(rejected.as_str(), ": drive-relative path is denied"),
            ),
            PathHazard::Rooted => Error::permission(
                text::cat2(rejected.as_str(), ": rooted path is denied"),
            ),
            PathHazard::ParentDir => Error::permission(rejected),
            PathHazard::AlternateDataStream => Error::permission(
                text::cat2("alternate data stream rejected: ", rel.quoted.as_str()),
            ),
            PathHazard::Nul => Error::malformed(
                text::cat2("path component contains a NUL byte: ", rel.quoted.as_str()),
            ),
            PathHazard::Separator => Error::permission(
                text::cat2("path component contains a separator: ", rel.quoted.as_str()),
            ),
            PathHazard::OutsideWorkspace => Error::permission(
                text::cat2("path escapes workspace: ", rel.quoted.as_str()),
            ),
            PathHazard::TooManyComponents => Error::oversized(
                text::cat2(rel.quoted.as_str(), " exceeds the 4096-component walk bound"),
            ),
        }
    }
}

// -------------------------------------------------------------------- units

/// `\` or `/`.
pub open spec fn sep(u: u16) -> bool {
    u == 92 || u == 47
}

fn is_sep(u: u16) -> (r: bool)
    ensures
        r == sep(u),
{
    u == 92 || u == 47
}

/// `u` with the letters `A` to `Z` turned to lower case.
pub open spec fn low(u: u16) -> u16 {
    if 65 <= u <= 90 {
        (u + 32) as u16
    } else {
        u
    }
}

fn ascii_lower(u: u16) -> (r: u16)
    ensures
        r == low(u),
{
    if 65 <= u && u <= 90 {
        u + 32
    } else {
        u
    }
}

/// `A` to `Z` or `a` to `z`.
pub open spec fn alpha(u: u16) -> bool {
    65 <= u <= 90 || 97 <= u <= 122
}

/// `units` with the letters `A` to `Z` turned to lower case.
pub open spec fn lowered(units: Seq<u16>) -> Seq<u16> {
    Seq::new(units.len(), |i: int| low(units[i]))
}

/// Equal but for the case of ASCII letters.
pub open spec fn same_ci(a: Seq<u16>, b: Seq<u16>) -> bool {
    lowered(a) == lowered(b)
}

/// Whether two names are equal but for the case of ASCII letters.
pub fn units_eq_ci(a: &[u16], b: &[u16]) -> (r: bool)
    ensures
        r == same_ci(a@, b@),
{
    if a.len() != b.len() {
        proof {
            assert(lowered(a@).len() != lowered(b@).len());
        }
        return false;
    }
    let mut i: usize = 0;
    while i < a.len()
        invariant
            i <= a.len(),
            a.len() == b.len(),
            forall|j: int| 0 <= j < i ==> low(a@[j]) == low(b@[j]),
        decreases a.len() - i,
    {
        if ascii_lower(a[i]) != ascii_lower(b[i]) {
            proof {
                assert(lowered(a@)[i as int] != lowered(b@)[i as int]);
            }
            return false;
        }
        i = i + 1;
    }
    proof {
        assert(lowered(a@) =~= lowered(b@));
    }
    true
}

fn lower_units(units: &[u16]) -> (r: Vec<u16>)
    ensures
        r@ == lowered(units@),
{
    let mut out: Vec<u16> = Vec::new();
    let mut i: usize = 0;
    while i < units.len()
        invariant
            i <= units.len(),
            out@ == lowered(units@).take(i as int),
        decreases units.len() - i,
    {
        out.push(ascii_lower(units[i]));
        i = i + 1;
        proof {
            assert(lowered(units@).take(i as int) =~= lowered(units@).take(i as int - 1).push(
                lowered(units@)[i as int - 1],
            ));
        }
    }
    proof {
        assert(lowered(units@).take(i as int) =~= lowered(units@));
    }
    out
}

/// The same units in a vector of their own.
pub fn copy_units(units: &[u16]) -> (r: Vec<u16>)
    ensures
        r@ == units@,
{
    let mut out: Vec<u16> = Vec::new();
    let mut i: usize = 0;
    while i < units.len()
        invariant
            i <= units.len(),
            out@ == units@.take(i as int),
        decreases units.len() - i,
    {
        out.push(units[i]);
        i = i + 1;
        proof {
            assert(units@.take(i as int) =~= units@.take(i as int - 1).push(units@[i as int - 1]));
        }
    }
    proof {
        assert(units@.take(i as int) =~= units@);
    }
    out
}

/// The first four units of `s` are `a`, `b`, `c`, `d`, but for ASCII case.
pub open spec fn begins(s: Seq<u16>, a: u16, b: u16, c: u16, d: u16) -> bool {
    s.len() >= 4 && low(s[0]) == low(a) && low(s[1]) == low(b) && low(s[2]) == low(c) && low(s[3])
        == low(d)
}

fn begins_with(s: &[u16], a: u16, b: u16, c: u16, d: u16) -> (r: bool)
    ensures
        r == begins(s@, a, b, c, d),
{
    s.len() >= 4 && ascii_lower(s[0]) == ascii_lower(a) && ascii_lower(s[1]) == ascii_lower(b)
        && ascii_lower(s[2]) == ascii_lower(c) && ascii_lower(s[3]) == ascii_lower(d)
}

/// Begins with `\\?\` or `\??\`.
pub open spec fn extended(s: Seq<u16>) -> bool {
    begins(s, 92, 92, 63, 92) || begins(s, 92, 63, 63, 92)
}

/// Begins with `\\.\`.
pub open spec fn device(s: Seq<u16>) -> bool {
    begins(s, 92, 92, 46, 92)
}

/// Begins with `UNC\`.
pub open spec fn unc_word(s: Seq<u16>) -> bool {
    begins(s, 85, 78, 67, 92)
}

/// Begins with a letter and a colon.
pub open spec fn drive(s: Seq<u16>) -> bool {
    s.len() >= 2 && s[1] == 58 && alpha(s[0])
}

/// Begins with a separator or with a drive.
pub open spec fn rooted(s: Seq<u16>) -> bool {
    (s.len() > 0 && sep(s[0])) || drive(s)
}

fn is_extended(s: &[u16]) -> (r: bool)
    ensures
        r == extended(s@),
{
    begins_with(s, 92, 92, 63, 92) || begins_with(s, 92, 63, 63, 92)
}

fn is_device(s: &[u16]) -> (r: bool)
    ensures
        r == device(s@),
{
    begins_with(s, 92, 92, 46, 92)
}

fn is_drive_spec(s: &[u16]) -> (r: bool)
    ensures
        r == drive(s@),
{
    s.len() >= 2 && s[1] == 58 && ((65 <= s[0] && s[0] <= 90) || (97 <= s[0] && s[0] <= 122))
}

fn looks_rooted(s: &[u16]) -> (r: bool)
    ensures
        r == rooted(s@),
{
    (s.len() > 0 && is_sep(s[0])) || is_drive_spec(s)
}

// ---------------------------------------------------------------- components

/// The names in `list`.
pub open spec fn parts(list: Seq<Vec<u16>>) -> Seq<Seq<u16>> {
    Seq::new(list.len(), |i: int| list[i]@)
}

/// `.`
pub open spec fn dot() -> Seq<u16> {
    seq![46u16]
}

/// `..`
pub open spec fn dotdot() -> Seq<u16> {
    seq![46u16, 46u16]
}

fn is_dot(comp: &[u16]) -> (r: bool)
    ensures
        r == (comp@ == dot()),
{
    let r: bool = comp.len() == 1 && comp[0] == 46;
    proof {
        assert(r ==> comp@ =~= dot());
    }
    r
}

fn is_dotdot(comp: &[u16]) -> (r: bool)
    ensures
        r == (comp@ == dotdot()),
{
    let r: bool = comp.len() == 2 && comp[0] == 46 && comp[1] == 46;
    proof {
        assert(r ==> comp@ =~= dotdot());
        assert(comp@ == dotdot() ==> comp@[1] == 46);
    }
    r
}

/// The first separator in `s`, or the length of `s`.
pub open spec fn sep_index(s: Seq<u16>) -> int
    decreases s.len(),
{
    if s.len() == 0 || sep(s[0]) {
        0
    } else {
        1 + sep_index(s.drop_first())
    }
}

proof fn lemma_sep_index(s: Seq<u16>, n: int)
    requires
        0 <= n <= s.len(),
        n < s.len() ==> sep(s[n]),
        forall|j: int| 0 <= j < n ==> !sep(#[trigger] s[j]),
    ensures
        sep_index(s) == n,
    decreases n,
{
    if n > 0 {
        assert(!sep(s[0]));
        let t = s.drop_first();
        assert forall|j: int| 0 <= j < n - 1 implies !sep(#[trigger] t[j]) by {
            assert(!sep(s[j + 1]));
        }
        lemma_sep_index(t, n - 1);
    }
}

/// The names between the separators of `s`; an empty one is dropped.
pub open spec fn names(s: Seq<u16>) -> Seq<Seq<u16>>
    decreases s.len(),
{
    let n = sep_index(s);
    if s.len() == 0 {
        Seq::empty()
    } else if n == 0 {
        names(s.skip(1))
    } else if 0 < n < s.len() {
        seq![s.take(n)] + names(s.skip(n + 1))
    } else {
        seq![s]
    }
}

/// Splits at both separators and drops what is empty.
fn split_raw(s: &[u16]) -> (r: Vec<Vec<u16>>)
    ensures
        parts(r@) == names(s@),
{
    let mut out: Vec<Vec<u16>> = Vec::new();
    let mut pos: usize = 0;
    proof {
        assert(s@.skip(0) =~= s@);
        assert(parts(out@) + names(s@) =~= names(s@));
    }
    while pos < s.len()
        invariant
            pos <= s.len(),
            parts(out@) + names(s@.skip(pos as int)) == names(s@),
        decreases s.len() - pos,
    {
        let mut n: usize = 0;
        let ghost rest = s@.skip(pos as int);
        while pos + n < s.len() && !is_sep(s[pos + n])
            invariant
                pos + n <= s.len(),
                rest == s@.skip(pos as int),
                forall|j: int| 0 <= j < n ==> !sep(#[trigger] rest[j]),
            decreases s.len() - pos - n,
        {
            proof {
                assert(rest[n as int] == s@[pos as int + n as int]);
            }
            n = n + 1;
        }
        let ghost before = out@;
        proof {
            if n < rest.len() {
                assert(rest[n as int] == s@[pos as int + n as int]);
            }
            lemma_sep_index(rest, n as int);
        }
        if n > 0 {
            let name: Vec<u16> = copy_units(slice_subrange(s, pos, pos + n));
            proof {
                assert(name@ =~= rest.take(n as int));
            }
            out.push(name);
            proof {
                assert(parts(out@) =~= parts(before).push(name@));
            }
        }
        if pos + n < s.len() {
            pos = pos + n + 1;
            proof {
                assert(rest.skip(n as int + 1) =~= s@.skip(pos as int));
                if n > 0 {
                    assert(parts(before) + (seq![rest.take(n as int)] + names(s@.skip(pos as int)))
                        =~= parts(out@) + names(s@.skip(pos as int)));
                }
            }
        } else {
            pos = pos + n;
            proof {
                assert(rest.take(n as int) =~= rest);
                assert(s@.skip(pos as int) =~= Seq::<u16>::empty());
                assert(parts(before) + seq![rest] =~= parts(out@) + Seq::<Seq<u16>>::empty());
            }
        }
    }
    proof {
        assert(s@.skip(pos as int) =~= Seq::<u16>::empty());
        assert(parts(out@) + Seq::<Seq<u16>>::empty() =~= parts(out@));
    }
    out
}

/// What is wrong with a single component.
pub open spec fn component_hazard(comp: Seq<u16>) -> Option<PathHazard> {
    if comp.len() == 0 {
        Some(PathHazard::Rooted)
    } else if comp.contains(0) {
        Some(PathHazard::Nul)
    } else if comp.contains(58) {
        Some(PathHazard::AlternateDataStream)
    } else if exists|i: int| 0 <= i < comp.len() && sep(#[trigger] comp[i]) {
        Some(PathHazard::Separator)
    } else {
        None
    }
}

/// Validates one component.
pub fn validate_component(comp: &[u16]) -> (r: Result<(), PathHazard>)
    ensures
        match component_hazard(comp@) {
            Some(h) => r == Err::<(), PathHazard>(h),
            None => r is Ok,
        },
{
    if comp.len() == 0 {
        return Err(PathHazard::Rooted);
    }
    let mut nul: bool = false;
    let mut colon: bool = false;
    let mut separator: bool = false;
    let mut i: usize = 0;
    while i < comp.len()
        invariant
            i <= comp.len(),
            nul == exists|j: int| 0 <= j < i && comp@[j] == 0,
            colon == exists|j: int| 0 <= j < i && comp@[j] == 58,
            separator == exists|j: int| 0 <= j < i && sep(#[trigger] comp@[j]),
        decreases comp.len() - i,
    {
        if comp[i] == 0 {
            nul = true;
        }
        if comp[i] == 58 {
            colon = true;
        }
        if is_sep(comp[i]) {
            separator = true;
        }
        i = i + 1;
    }
    if nul {
        Err(PathHazard::Nul)
    } else if colon {
        Err(PathHazard::AlternateDataStream)
    } else if separator {
        Err(PathHazard::Separator)
    } else {
        Ok(())
    }
}

/// The components that a caller may name: `.` is dropped, `..` and whatever
/// [`component_hazard`] finds are refused, the first refusal counts.
pub open spec fn caller_components(comps: Seq<Seq<u16>>) -> Result<Seq<Seq<u16>>, PathHazard>
    decreases comps.len(),
{
    if comps.len() == 0 {
        Ok(Seq::empty())
    } else {
        match caller_components(comps.drop_last()) {
            Err(h) => Err(h),
            Ok(out) => if comps.last() == dot() {
                Ok(out)
            } else if comps.last() == dotdot() {
                Err(PathHazard::ParentDir)
            } else {
                match component_hazard(comps.last()) {
                    Some(h) => Err(h),
                    None => Ok(out.push(comps.last())),
                }
            },
        }
    }
}

proof fn lemma_caller_fail(comps: Seq<Seq<u16>>, n: int)
    requires
        0 <= n <= comps.len(),
        caller_components(comps.take(n)) is Err,
    ensures
        caller_components(comps) == caller_components(comps.take(n)),
    decreases comps.len() - n,
{
    if n == comps.len() {
        assert(comps.take(n) =~= comps);
    } else {
        assert(comps.take(n + 1).drop_last() =~= comps.take(n));
        lemma_caller_fail(comps, n + 1);
    }
}

/// What is stated of a list of components or the hazard that refuses it.
pub open spec fn listed(r: Result<Vec<Vec<u16>>, PathHazard>) -> Result<
    Seq<Seq<u16>>,
    PathHazard,
> {
    match r {
        Ok(list) => Ok(parts(list@)),
        Err(h) => Err(h),
    }
}

fn validate_caller_components(comps: Vec<Vec<u16>>) -> (r: Result<Vec<Vec<u16>>, PathHazard>)
    ensures
        listed(r) == caller_components(parts(comps@)),
{
    let ghost all = parts(comps@);
    let mut out: Vec<Vec<u16>> = Vec::new();
    let mut i: usize = 0;
    proof {
        assert(all.take(0) =~= Seq::<Seq<u16>>::empty());
        assert(parts(out@) =~= Seq::<Seq<u16>>::empty());
    }
    while i < comps.len()
        invariant
            i <= comps.len(),
            all == parts(comps@),
            caller_components(all.take(i as int)) == Ok::<Seq<Seq<u16>>, PathHazard>(parts(out@)),
        decreases comps.len() - i,
    {
        let comp: &[u16] = comps[i].as_slice();
        proof {
            assert(all.take(i as int + 1).drop_last() =~= all.take(i as int));
            assert(all.take(i as int + 1).last() == comp@);
        }
        if is_dot(comp) {
        } else if is_dotdot(comp) {
            proof {
                lemma_caller_fail(all, i as int + 1);
            }
            return Err(PathHazard::ParentDir);
        } else {
            match validate_component(comp) {
                Err(h) => {
                    proof {
                        lemma_caller_fail(all, i as int + 1);
                    }
                    return Err(h);
                },
                Ok(_) => {
                    let ghost before = parts(out@);
                    out.push(copy_units(comp));
                    proof {
                        assert(parts(out@) =~= before.push(comp@));
                    }
                },
            }
        }
        i = i + 1;
    }
    proof {
        assert(all.take(i as int) =~= all);
    }
    Ok(out)
}

/// The path begins with a drive that no separator follows.
pub open spec fn drive_relative(path: Seq<u16>) -> bool {
    drive(path) && !(path.len() > 2 && sep(path[2]))
}

fn is_drive_relative(path: &[u16]) -> (r: bool)
    ensures
        r == drive_relative(path@),
{
    is_drive_spec(path) && !(path.len() > 2 && is_sep(path[2]))
}

/// The components of a path that must be relative.
pub open spec fn relative_components(rel: Seq<u16>) -> Result<Seq<Seq<u16>>, PathHazard> {
    if extended(rel) {
        Err(PathHazard::ExtendedPrefix)
    } else if device(rel) {
        Err(PathHazard::DeviceNamespace)
    } else if rel.len() > 0 && sep(rel[0]) {
        if rel.len() > 1 && sep(rel[1]) {
            Err(PathHazard::UncRoot)
        } else {
            Err(PathHazard::Rooted)
        }
    } else if drive_relative(rel) {
        Err(PathHazard::DriveRelative)
    } else if drive(rel) {
        Err(PathHazard::Rooted)
    } else {
        caller_components(names(rel))
    }
}

/// Splits and validates a path that must be relative.
pub fn split_relative(rel: &[u16]) -> (r: Result<Vec<Vec<u16>>, PathHazard>)
    ensures
        listed(r) == relative_components(rel@),
{
    if is_extended(rel) {
        return Err(PathHazard::ExtendedPrefix);
    }
    if is_device(rel) {
        return Err(PathHazard::DeviceNamespace);
    }
    if rel.len() > 0 && is_sep(rel[0]) {
        return Err(
            if rel.len() > 1 && is_sep(rel[1]) {
                PathHazard::UncRoot
            } else {
                PathHazard::Rooted
            },
        );
    }
    if is_drive_relative(rel) {
        return Err(PathHazard::DriveRelative);
    }
    if is_drive_spec(rel) {
        return Err(PathHazard::Rooted);
    }
    validate_caller_components(split_raw(rel))
}

// --------------------------------------------------------------------- roots

/// What an absolute path hangs from, in lower case.
#[derive(Debug, Clone, PartialEq, Eq)]
pub enum RootForm {
    Drive(Vec<u16>),
    Unc(Vec<u16>, Vec<u16>),
}

/// A [`RootForm`] by its contents.
pub enum RootView {
    Drive(Seq<u16>),
    Unc(Seq<u16>, Seq<u16>),
}

impl View for RootForm {
    type V = RootView;

    open spec fn view(&self) -> RootView {
        match self {
            RootForm::Drive(d) => RootView::Drive(d@),
            RootForm::Unc(s, h) => RootView::Unc(s@, h@),
        }
    }
}

/// A server and a share, and the names behind them.
pub open spec fn unc_form(comps: Seq<Seq<u16>>) -> Option<(RootView, Seq<Seq<u16>>)> {
    if comps.len() < 2 {
        None
    } else {
        Some((RootView::Unc(lowered(comps[0]), lowered(comps[1])), comps.skip(2)))
    }
}

/// The path without `\\?\` or `\??\` in front.
pub open spec fn unprefixed(units: Seq<u16>) -> Seq<u16> {
    if extended(units) {
        units.skip(4)
    } else {
        units
    }
}

/// What an absolute path hangs from, and the names behind that. A path such as
/// `\Device\x` hangs from nothing that could be compared.
pub open spec fn parsed_root(units: Seq<u16>) -> Option<(RootView, Seq<Seq<u16>>)> {
    let rest = unprefixed(units);
    if unc_word(rest) {
        unc_form(names(rest.skip(4)))
    } else if rest.len() >= 2 && sep(rest[0]) && sep(rest[1]) {
        unc_form(names(rest))
    } else if drive(rest) {
        Some((RootView::Drive(lowered(rest.take(2))), names(rest.skip(2))))
    } else {
        None
    }
}

/// What is stated of a parsed root.
pub open spec fn root_parts(r: Option<(RootForm, Vec<Vec<u16>>)>) -> Option<
    (RootView, Seq<Seq<u16>>),
> {
    match r {
        Some((form, comps)) => Some((form@, parts(comps@))),
        None => None,
    }
}

/// The names from number `from` on.
fn names_from(comps: &Vec<Vec<u16>>, from: usize) -> (r: Vec<Vec<u16>>)
    requires
        from <= comps.len(),
    ensures
        parts(r@) == parts(comps@).skip(from as int),
{
    let mut out: Vec<Vec<u16>> = Vec::new();
    let mut i: usize = from;
    while i < comps.len()
        invariant
            from <= i <= comps.len(),
            parts(out@) == parts(comps@).subrange(from as int, i as int),
        decreases comps.len() - i,
    {
        let ghost before = parts(out@);
        let name: Vec<u16> = copy_units(comps[i].as_slice());
        out.push(name);
        i = i + 1;
        proof {
            assert(parts(out@) =~= before.push(name@));
            assert(parts(comps@).subrange(from as int, i as int) =~= before.push(
                parts(comps@)[i as int - 1],
            ));
        }
    }
    proof {
        assert(parts(comps@).subrange(from as int, i as int) =~= parts(comps@).skip(from as int));
    }
    out
}

fn unc_root(comps: Vec<Vec<u16>>) -> (r: Option<(RootForm, Vec<Vec<u16>>)>)
    ensures
        root_parts(r) == unc_form(parts(comps@)),
{
    if comps.len() < 2 {
        return None;
    }
    let server: Vec<u16> = lower_units(comps[0].as_slice());
    let share: Vec<u16> = lower_units(comps[1].as_slice());
    Some((RootForm::Unc(server, share), names_from(&comps, 2)))
}

fn parse_rooted(units: &[u16]) -> (r: Option<(RootForm, Vec<Vec<u16>>)>)
    ensures
        root_parts(r) == parsed_root(units@),
{
    let rest: &[u16] = if is_extended(units) {
        slice_subrange(units, 4, units.len())
    } else {
        units
    };
    proof {
        assert(rest@ =~= unprefixed(units@));
    }
    if begins_with(rest, 85, 78, 67, 92) {
        let tail: &[u16] = slice_subrange(rest, 4, rest.len());
        proof {
            assert(tail@ =~= rest@.skip(4));
        }
        return unc_root(split_raw(tail));
    }
    if rest.len() >= 2 && is_sep(rest[0]) && is_sep(rest[1]) {
        return unc_root(split_raw(rest));
    }
    if is_drive_spec(rest) {
        let head: &[u16] = slice_subrange(rest, 0, 2);
        let tail: &[u16] = slice_subrange(rest, 2, rest.len());
        proof {
            assert(head@ =~= rest@.take(2));
            assert(tail@ =~= rest@.skip(2));
        }
        return Some((RootForm::Drive(lower_units(head)), split_raw(tail)));
    }
    None
}

/// Whether two forms name one drive, or one share of one server.
pub open spec fn same_root(a: RootView, b: RootView) -> bool {
    match (a, b) {
        (RootView::Drive(a), RootView::Drive(b)) => same_ci(a, b),
        (RootView::Unc(sa, ha), RootView::Unc(sb, hb)) => same_ci(sa, sb) && same_ci(ha, hb),
        _ => false,
    }
}

fn root_form_eq(a: &RootForm, b: &RootForm) -> (r: bool)
    ensures
        r == same_root(a@, b@),
{
    match (a, b) {
        (RootForm::Drive(a), RootForm::Drive(b)) => units_eq_ci(a.as_slice(), b.as_slice()),
        (RootForm::Unc(sa, ha), RootForm::Unc(sb, hb)) => {
            units_eq_ci(sa.as_slice(), sb.as_slice()) && units_eq_ci(ha.as_slice(), hb.as_slice())
        },
        _ => false,
    }
}

/// `list` begins with the names of `head`, but for ASCII case.
pub open spec fn begins_with_names(list: Seq<Seq<u16>>, head: Seq<Seq<u16>>) -> bool {
    list.len() >= head.len() && forall|i: int|
        0 <= i < head.len() ==> same_ci(#[trigger] list[i], head[i])
}

/// The names of the absolute `path` behind those of the absolute `root`.
pub open spec fn below_root(root: Seq<u16>, path: Seq<u16>) -> Option<Seq<Seq<u16>>> {
    match (parsed_root(root), parsed_root(path)) {
        (Some((rf, rc)), Some((pf, pc))) => if same_root(rf, pf) && begins_with_names(pc, rc) {
            Some(pc.skip(rc.len() as int))
        } else {
            None
        },
        _ => None,
    }
}

/// The names of the absolute `path` behind those of `root`, or
/// [`PathHazard::OutsideWorkspace`] where `path` is not below `root`.
pub fn strip_root_prefix(root: &[u16], path: &[u16]) -> (r: Result<Vec<Vec<u16>>, PathHazard>)
    ensures
        listed(r) == match below_root(root@, path@) {
            Some(rest) => Ok::<Seq<Seq<u16>>, PathHazard>(rest),
            None => Err(PathHazard::OutsideWorkspace),
        },
{
    let (root_form, root_comps) = match parse_rooted(root) {
        None => {
            return Err(PathHazard::OutsideWorkspace);
        },
        Some(p) => p,
    };
    let (path_form, path_comps) = match parse_rooted(path) {
        None => {
            return Err(PathHazard::OutsideWorkspace);
        },
        Some(p) => p,
    };
    if !root_form_eq(&root_form, &path_form) {
        return Err(PathHazard::OutsideWorkspace);
    }
    if path_comps.len() < root_comps.len() {
        return Err(PathHazard::OutsideWorkspace);
    }
    let ghost rc = parts(root_comps@);
    let ghost pc = parts(path_comps@);
    let mut i: usize = 0;
    while i < root_comps.len()
        invariant
            i <= root_comps.len() <= path_comps.len(),
            rc == parts(root_comps@),
            pc == parts(path_comps@),
            parsed_root(root@) == Some((root_form@, rc)),
            parsed_root(path@) == Some((path_form@, pc)),
            forall|j: int| 0 <= j < i ==> same_ci(#[trigger] pc[j], rc[j]),
        decreases root_comps.len() - i,
    {
        if !units_eq_ci(path_comps[i].as_slice(), root_comps[i].as_slice()) {
            proof {
                assert(!same_ci(pc[i as int], rc[i as int]));
            }
            return Err(PathHazard::OutsideWorkspace);
        }
        i = i + 1;
    }
    Ok(names_from(&path_comps, root_comps.len()))
}

/// The components of a caller's path under `root`.
pub open spec fn components_under(root: Seq<u16>, rel: Seq<u16>) -> Result<
    Seq<Seq<u16>>,
    PathHazard,
> {
    let comps = if drive_relative(rel) {
        Err(PathHazard::DriveRelative)
    } else if rooted(rel) {
        match below_root(root, rel) {
            Some(rest) => caller_components(rest),
            None => Err(PathHazard::OutsideWorkspace),
        }
    } else {
        relative_components(rel)
    };
    if rel.len() == 0 {
        Ok(Seq::empty())
    } else if extended(rel) {
        Err(PathHazard::ExtendedPrefix)
    } else if device(rel) {
        Err(PathHazard::DeviceNamespace)
    } else {
        match comps {
            Err(h) => Err(h),
            Ok(list) => if list.len() > MAX_COMPONENTS {
                Err(PathHazard::TooManyComponents)
            } else {
                Ok(list)
            },
        }
    }
}

/// Splits and validates the caller's path `rel`, which is relative or names a
/// place below `root`.
pub fn lexical_components(root: &[u16], rel: &[u16]) -> (r: Result<Vec<Vec<u16>>, PathHazard>)
    ensures
        listed(r) == components_under(root@, rel@),
{
    if rel.len() == 0 {
        let out: Vec<Vec<u16>> = Vec::new();
        proof {
            assert(parts(out@) =~= Seq::<Seq<u16>>::empty());
        }
        return Ok(out);
    }
    if is_extended(rel) {
        return Err(PathHazard::ExtendedPrefix);
    }
    if is_device(rel) {
        return Err(PathHazard::DeviceNamespace);
    }
    let comps: Result<Vec<Vec<u16>>, PathHazard> = if is_drive_relative(rel) {
        Err(PathHazard::DriveRelative)
    } else if looks_rooted(rel) {
        match strip_root_prefix(root, rel) {
            Err(h) => Err(h),
            Ok(rest) => validate_caller_components(rest),
        }
    } else {
        split_relative(rel)
    };
    match comps {
        Err(h) => Err(h),
        Ok(list) => if list.len() > MAX_COMPONENTS {
            Err(PathHazard::TooManyComponents)
        } else {
            Ok(list)
        },
    }
}

// ------------------------------------------------------------- link targets

/// Where a link sends a walk.
#[derive(Debug, Clone, PartialEq, Eq)]
pub enum Rebase {
    /// The walk goes on from the directory that holds the link.
    Stay(Vec<Vec<u16>>),
    /// The walk starts over at the root.
    Relocate(Vec<Vec<u16>>),
}

/// A [`Rebase`] by its contents.
pub enum RebaseView {
    Stay(Seq<Seq<u16>>),
    Relocate(Seq<Seq<u16>>),
}

impl View for Rebase {
    type V = RebaseView;

    open spec fn view(&self) -> RebaseView {
        match self {
            Rebase::Stay(c) => RebaseView::Stay(parts(c@)),
            Rebase::Relocate(c) => RebaseView::Relocate(parts(c@)),
        }
    }
}

/// What is stated of a rebase or the hazard that refuses it.
pub open spec fn rebased(r: Result<Rebase, PathHazard>) -> Result<RebaseView, PathHazard> {
    match r {
        Ok(b) => Ok(b@),
        Err(h) => Err(h),
    }
}

/// Follows the names of `comps` from `base`: `.` stays, `..` goes up one and
/// is refused at the top, what [`component_hazard`] finds is refused, and the
/// first refusal counts.
pub open spec fn followed(base: Seq<Seq<u16>>, comps: Seq<Seq<u16>>) -> Result<
    Seq<Seq<u16>>,
    PathHazard,
>
    decreases comps.len(),
{
    if comps.len() == 0 {
        Ok(base)
    } else {
        match followed(base, comps.drop_last()) {
            Err(h) => Err(h),
            Ok(acc) => if comps.last() == dot() {
                Ok(acc)
            } else if comps.last() == dotdot() {
                if acc.len() == 0 {
                    Err(PathHazard::OutsideWorkspace)
                } else {
                    Ok(acc.drop_last())
                }
            } else {
                match component_hazard(comps.last()) {
                    Some(h) => Err(h),
                    None => Ok(acc.push(comps.last())),
                }
            },
        }
    }
}

/// The names of `comps` that are neither `.` nor `..`.
pub open spec fn plain_names(comps: Seq<Seq<u16>>) -> Seq<Seq<u16>>
    decreases comps.len(),
{
    if comps.len() == 0 {
        Seq::empty()
    } else if comps.last() == dot() || comps.last() == dotdot() {
        plain_names(comps.drop_last())
    } else {
        plain_names(comps.drop_last()).push(comps.last())
    }
}

/// Where the link target leads, as seen from the directory `pos` under `root`.
/// A target must be written as its flag says: an absolute one below `root`, or
/// a relative one that does not climb above it.
pub open spec fn rebase_of(
    root: Seq<u16>,
    pos: Seq<Seq<u16>>,
    target: Seq<u16>,
    relative: bool,
) -> Result<RebaseView, PathHazard> {
    let comps = names(target);
    if relative == rooted(target) {
        Err(PathHazard::OutsideWorkspace)
    } else if relative {
        match followed(pos, comps) {
            Err(h) => Err(h),
            Ok(acc) => if comps.contains(dotdot()) {
                Ok(RebaseView::Relocate(acc))
            } else {
                Ok(RebaseView::Stay(plain_names(comps)))
            },
        }
    } else {
        match below_root(root, target) {
            None => Err(PathHazard::OutsideWorkspace),
            Some(rest) => match followed(Seq::empty(), rest) {
                Err(h) => Err(h),
                Ok(acc) => Ok(RebaseView::Relocate(acc)),
            },
        }
    }
}

proof fn lemma_followed_fail(base: Seq<Seq<u16>>, comps: Seq<Seq<u16>>, n: int)
    requires
        0 <= n <= comps.len(),
        followed(base, comps.take(n)) is Err,
    ensures
        followed(base, comps) == followed(base, comps.take(n)),
    decreases comps.len() - n,
{
    if n == comps.len() {
        assert(comps.take(n) =~= comps);
    } else {
        assert(comps.take(n + 1).drop_last() =~= comps.take(n));
        lemma_followed_fail(base, comps, n + 1);
    }
}

/// Follows `comps` from the position in `acc`.
fn follow(acc: &mut Vec<Vec<u16>>, comps: &Vec<Vec<u16>>) -> (r: Result<(), PathHazard>)
    ensures
        match followed(parts(old(acc)@), parts(comps@)) {
            Ok(end) => r is Ok && parts(final(acc)@) == end,
            Err(h) => r == Err::<(), PathHazard>(h),
        },
{
    let ghost all = parts(comps@);
    let ghost base = parts(acc@);
    let mut i: usize = 0;
    proof {
        assert(all.take(0) =~= Seq::<Seq<u16>>::empty());
    }
    while i < comps.len()
        invariant
            i <= comps.len(),
            all == parts(comps@),
            base == parts(old(acc)@),
            followed(base, all.take(i as int)) == Ok::<Seq<Seq<u16>>, PathHazard>(parts(acc@)),
        decreases comps.len() - i,
    {
        let comp: &[u16] = comps[i].as_slice();
        let ghost before = parts(acc@);
        proof {
            assert(all.take(i as int + 1).drop_last() =~= all.take(i as int));
            assert(all.take(i as int + 1).last() == comp@);
        }
        if is_dot(comp) {
        } else if is_dotdot(comp) {
            if acc.len() == 0 {
                proof {
                    lemma_followed_fail(base, all, i as int + 1);
                }
                return Err(PathHazard::OutsideWorkspace);
            }
            let _up: Option<Vec<u16>> = acc.pop();
            proof {
                assert(parts(acc@) =~= before.drop_last());
            }
        } else {
            match validate_component(comp) {
                Err(h) => {
                    proof {
                        lemma_followed_fail(base, all, i as int + 1);
                    }
                    return Err(h);
                },
                Ok(_) => {
                    acc.push(copy_units(comp));
                    proof {
                        assert(parts(acc@) =~= before.push(comp@));
                    }
                },
            }
        }
        i = i + 1;
    }
    proof {
        assert(all.take(i as int) =~= all);
    }
    Ok(())
}

/// The names of `comps` that are neither `.` nor `..`, and whether `..` is among
/// them.
fn plain_of(comps: &Vec<Vec<u16>>) -> (r: (Vec<Vec<u16>>, bool))
    ensures
        parts(r.0@) == plain_names(parts(comps@)),
        r.1 == parts(comps@).contains(dotdot()),
{
    let ghost all = parts(comps@);
    let mut out: Vec<Vec<u16>> = Vec::new();
    let mut saw_parent: bool = false;
    let mut i: usize = 0;
    proof {
        assert(all.take(0) =~= Seq::<Seq<u16>>::empty());
        assert(parts(out@) =~= Seq::<Seq<u16>>::empty());
    }
    while i < comps.len()
        invariant
            i <= comps.len(),
            all == parts(comps@),
            parts(out@) == plain_names(all.take(i as int)),
            saw_parent == exists|j: int| 0 <= j < i && #[trigger] all[j] == dotdot(),
        decreases comps.len() - i,
    {
        let comp: &[u16] = comps[i].as_slice();
        let ghost before = parts(out@);
        proof {
            assert(all.take(i as int + 1).drop_last() =~= all.take(i as int));
            assert(all.take(i as int + 1).last() == comp@);
            assert(all[i as int] == comp@);
        }
        if is_dotdot(comp) {
            saw_parent = true;
        } else if !is_dot(comp) {
            out.push(copy_units(comp));
            proof {
                assert(parts(out@) =~= before.push(comp@));
            }
        }
        i = i + 1;
    }
    proof {
        assert(all.take(i as int) =~= all);
    }
    (out, saw_parent)
}

/// The same names in a list of their own.
pub fn copy_names(comps: &Vec<Vec<u16>>) -> (r: Vec<Vec<u16>>)
    ensures
        parts(r@) == parts(comps@),
{
    let out: Vec<Vec<u16>> = names_from(comps, 0);
    proof {
        assert(parts(comps@).skip(0) =~= parts(comps@));
    }
    out
}

/// Where the link target leads, as seen from the directory `pos` under `root`.
pub fn rebase_target(root: &[u16], pos: &Vec<Vec<u16>>, target: &[u16], relative: bool) -> (r:
    Result<Rebase, PathHazard>)
    ensures
        rebased(r) == rebase_of(root@, parts(pos@), target@, relative),
{
    if relative == looks_rooted(target) {
        return Err(PathHazard::OutsideWorkspace);
    }
    if relative {
        let comps: Vec<Vec<u16>> = split_raw(target);
        let mut acc: Vec<Vec<u16>> = copy_names(pos);
        match follow(&mut acc, &comps) {
            Err(h) => Err(h),
            Ok(_) => {
                let (plain, saw_parent) = plain_of(&comps);
                if saw_parent {
                    Ok(Rebase::Relocate(acc))
                } else {
                    Ok(Rebase::Stay(plain))
                }
            },
        }
    } else {
        match strip_root_prefix(root, target) {
            Err(h) => Err(h),
            Ok(rest) => {
                let mut acc: Vec<Vec<u16>> = Vec::new();
                proof {
                    assert(parts(acc@) =~= Seq::<Seq<u16>>::empty());
                }
                match follow(&mut acc, &rest) {
                    Err(h) => Err(h),
                    Ok(_) => Ok(Rebase::Relocate(acc)),
                }
            },
        }
    }
}

// ----------------------------------------------------------- reparse buffers

/// A link read out of a reparse buffer.
#[derive(Debug, Clone, PartialEq, Eq)]
pub struct ParsedReparse {
    pub tag: u32,
    pub flags: u32,
    pub substitute: Vec<u16>,
    pub print: Vec<u16>,
}

/// A [`ParsedReparse`] by its contents.
pub struct ReparseView {
    pub tag: u32,
    pub flags: u32,
    pub substitute: Seq<u16>,
    pub print: Seq<u16>,
}

impl View for ParsedReparse {
    type V = ReparseView;

    open spec fn view(&self) -> ReparseView {
        ReparseView {
            tag: self.tag,
            flags: self.flags,
            substitute: self.substitute@,
            print: self.print@,
        }
    }
}

/// Why a reparse buffer is not read as a link.
#[derive(Debug, Clone, Copy, PartialEq, Eq, Structural)]
pub enum ReparseError {
    TooShort,
    Truncated,
    OddLength,
    TargetTooLong,
    NulInTarget,
    UnsupportedTag,
}

impl ReparseError {
    /// The name of the error.
    pub open spec fn name(self) -> Seq<char> {
        match self {
            ReparseError::TooShort => "TooShort"@,
            ReparseError::Truncated => "Truncated"@,
            ReparseError::OddLength => "OddLength"@,
            ReparseError::TargetTooLong => "TargetTooLong"@,
            ReparseError::NulInTarget => "NulInTarget"@,
            ReparseError::UnsupportedTag => "UnsupportedTag"@,
        }
    }

    /// The name of the error.
    pub fn label(self) -> (r: &'static str)
        ensures
            r@ == self.name(),
    {
        match self {
            ReparseError::TooShort => "TooShort",
            ReparseError::Truncated => "Truncated",
            ReparseError::OddLength => "OddLength",
            ReparseError::TargetTooLong => "TargetTooLong",
            ReparseError::NulInTarget => "NulInTarget",
            ReparseError::UnsupportedTag => "UnsupportedTag",
        }
    }
}

/// The little-endian number in the two bytes at `at`.
pub open spec fn le16(d: Seq<u8>, at: int) -> nat {
    d[at] as nat + 256 * d[at + 1] as nat
}

/// The little-endian number in the four bytes at `at`.
pub open spec fn le32(d: Seq<u8>, at: int) -> nat {
    le16(d, at) + 65536 * le16(d, at + 2)
}

/// `count` units, two bytes each, from `at` on.
pub open spec fn units_at(d: Seq<u8>, at: int, count: nat) -> Seq<u16> {
    Seq::new(count, |i: int| le16(d, at + 2 * i) as u16)
}

/// The name of `len` bytes at `start` in `body`.
pub open spec fn field_of(body: Seq<u8>, start: int, len: nat) -> Result<Seq<u16>, ReparseError> {
    if len % 2 != 0 {
        Err(ReparseError::OddLength)
    } else if len == 0 {
        Ok(Seq::empty())
    } else if start + len > body.len() {
        Err(ReparseError::Truncated)
    } else if len / 2 > MAX_REPARSE_TARGET_UNITS {
        Err(ReparseError::TargetTooLong)
    } else if units_at(body, start, len / 2).contains(0) {
        Err(ReparseError::NulInTarget)
    } else {
        Ok(units_at(body, start, len / 2))
    }
}

/// The two names of a link whose names start at `base` in `body`.
pub open spec fn link_of(tag: u32, flags: u32, body: Seq<u8>, base: int) -> Result<
    ReparseView,
    ReparseError,
> {
    match field_of(body, base + le16(body, 0), le16(body, 2)) {
        Err(e) => Err(e),
        Ok(substitute) => match field_of(body, base + le16(body, 4), le16(body, 6)) {
            Err(e) => Err(e),
            Ok(print) => Ok(ReparseView { tag, flags, substitute, print }),
        },
    }
}

/// A reparse buffer read as a symbolic link or a mount point: the tag in the
/// first four bytes, the length of the body in the next two, and the body from
/// the ninth byte on.
pub open spec fn reparse_of(data: Seq<u8>) -> Result<ReparseView, ReparseError> {
    if data.len() < 8 {
        Err(ReparseError::TooShort)
    } else if data.len() < 8 + le16(data, 4) {
        Err(ReparseError::Truncated)
    } else {
        let tag = le32(data, 0) as u32;
        let body = data.subrange(8, 8 + le16(data, 4) as int);
        if tag == IO_REPARSE_TAG_SYMLINK {
            if body.len() < 12 {
                Err(ReparseError::Truncated)
            } else {
                link_of(tag, le32(body, 8) as u32, body, 12)
            }
        } else if tag == IO_REPARSE_TAG_MOUNT_POINT {
            if body.len() < 8 {
                Err(ReparseError::Truncated)
            } else {
                link_of(tag, 0, body, 8)
            }
        } else {
            Err(ReparseError::UnsupportedTag)
        }
    }
}

/// What is stated of a parsed reparse buffer.
pub open spec fn reparse_read(r: Result<ParsedReparse, ReparseError>) -> Result<
    ReparseView,
    ReparseError,
> {
    match r {
        Ok(p) => Ok(p@),
        Err(e) => Err(e),
    }
}

fn read_u16(d: &[u8], at: usize) -> (r: u16)
    requires
        at + 2 <= d.len(),
    ensures
        r == le16(d@, at as int),
{
    d[at] as u16 + 256 * (d[at + 1] as u16)
}

fn read_u32(d: &[u8], at: usize) -> (r: u32)
    requires
        at + 4 <= d.len(),
    ensures
        r == le32(d@, at as int),
{
    read_u16(d, at) as u32 + 65536 * (read_u16(d, at + 2) as u32)
}

fn utf16_field(body: &[u8], start: usize, len: usize) -> (r: Result<Vec<u16>, ReparseError>)
    requires
        start <= 131072,
        len <= 65535,
    ensures
        match field_of(body@, start as int, len as nat) {
            Ok(units) => r matches Ok(v) && v@ == units,
            Err(e) => r == Err::<Vec<u16>, ReparseError>(e),
        },
{
    let mut units: Vec<u16> = Vec::new();
    if len % 2 != 0 {
        return Err(ReparseError::OddLength);
    }
    if len == 0 {
        proof {
            assert(units@ =~= Seq::<u16>::empty());
        }
        return Ok(units);
    }
    if start + len > body.len() {
        return Err(ReparseError::Truncated);
    }
    let count: usize = len / 2;
    let ghost all = units_at(body@, start as int, count as nat);
    let mut nul: bool = false;
    let mut i: usize = 0;
    while i < count
        invariant
            i <= count,
            start + 2 * count <= body.len(),
            all == units_at(body@, start as int, count as nat),
            units@ == all.take(i as int),
            nul == exists|j: int| 0 <= j < i && #[trigger] all[j] == 0,
        decreases count - i,
    {
        let unit: u16 = read_u16(body, start + 2 * i);
        proof {
            assert(all[i as int] == unit);
            assert(all.take(i as int + 1) =~= all.take(i as int).push(unit));
        }
        if unit == 0 {
            nul = true;
        }
        units.push(unit);
        i = i + 1;
    }
    proof {
        assert(all.take(i as int) =~= all);
        assert(nul == all.contains(0)) by {
            if all.contains(0) {
                let j = choose|j: int| 0 <= j < all.len() && all[j] == 0;
                assert(all[j] == 0);
            }
        }
    }
    if count > MAX_REPARSE_TARGET_UNITS {
        return Err(ReparseError::TargetTooLong);
    }
    if nul {
        return Err(ReparseError::NulInTarget);
    }
    Ok(units)
}

fn read_link(tag: u32, flags: u32, body: &[u8], base: usize) -> (r: Result<
    ParsedReparse,
    ReparseError,
>)
    requires
        8 <= body.len(),
        base <= 12,
    ensures
        reparse_read(r) == link_of(tag, flags, body@, base as int),
{
    let sub_off: usize = read_u16(body, 0) as usize;
    let sub_len: usize = read_u16(body, 2) as usize;
    let print_off: usize = read_u16(body, 4) as usize;
    let print_len: usize = read_u16(body, 6) as usize;
    match utf16_field(body, base + sub_off, sub_len) {
        Err(e) => Err(e),
        Ok(substitute) => match utf16_field(body, base + print_off, print_len) {
            Err(e) => Err(e),
            Ok(print) => Ok(ParsedReparse { tag, flags, substitute, print }),
        },
    }
}

/// Reads a reparse buffer. Only symbolic links and mount points are accepted.
pub fn parse_reparse_data(data: &[u8]) -> (r: Result<ParsedReparse, ReparseError>)
    ensures
        reparse_read(r) == reparse_of(data@),
{
    if data.len() < 8 {
        return Err(ReparseError::TooShort);
    }
    let tag: u32 = read_u32(data, 0);
    let data_len: usize = read_u16(data, 4) as usize;
    let end: usize = 8 + data_len;
    if data.len() < end {
        return Err(ReparseError::Truncated);
    }
    let body: &[u8] = slice_subrange(data, 8, end);
    if tag == IO_REPARSE_TAG_SYMLINK {
        if body.len() < 12 {
            return Err(ReparseError::Truncated);
        }
        let flags: u32 = read_u32(body, 8);
        read_link(tag, flags, body, 12)
    } else if tag == IO_REPARSE_TAG_MOUNT_POINT {
        if body.len() < 8 {
            return Err(ReparseError::Truncated);
        }
        read_link(tag, 0, body, 8)
    } else {
        Err(ReparseError::UnsupportedTag)
    }
}

// --------------------------------------------------------------------- laws

/// A name that can be opened in a directory without leaving it: not empty,
/// neither `.` nor `..`, and without separator, colon or NUL.
pub open spec fn plain(comp: Seq<u16>) -> bool {
    comp != dot() && comp != dotdot() && component_hazard(comp) is None
}

/// All names of `list` are [`plain`].
pub open spec fn all_plain(list: Seq<Seq<u16>>) -> bool {
    forall|i: int| 0 <= i < list.len() ==> plain(#[trigger] list[i])
}

/// Every component that a caller's path is accepted with is a plain name, and
/// there are at most [`MAX_COMPONENTS`] of them.
pub proof fn law_accepted_paths_stay_below(root: Seq<u16>, rel: Seq<u16>)
    ensures
        match components_under(root, rel) {
            Ok(list) => all_plain(list) && list.len() <= MAX_COMPONENTS,
            Err(_) => true,
        },
{
    lemma_caller_plain(names(rel));
    if let Some(rest) = below_root(root, rel) {
        lemma_caller_plain(rest);
    }
}

proof fn lemma_caller_plain(comps: Seq<Seq<u16>>)
    ensures
        caller_components(comps) matches Ok(list) ==> all_plain(list),
    decreases comps.len(),
{
    if comps.len() > 0 {
        lemma_caller_plain(comps.drop_last());
    }
}

proof fn lemma_followed_plain(base: Seq<Seq<u16>>, comps: Seq<Seq<u16>>)
    requires
        all_plain(base),
    ensures
        followed(base, comps) matches Ok(acc) ==> all_plain(acc) && acc.len() <= base.len()
            + comps.len(),
    decreases comps.len(),
{
    if comps.len() > 0 {
        lemma_followed_plain(base, comps.drop_last());
    }
}

proof fn lemma_plain_names(base: Seq<Seq<u16>>, comps: Seq<Seq<u16>>)
    requires
        followed(base, comps) is Ok,
    ensures
        all_plain(plain_names(comps)),
    decreases comps.len(),
{
    if comps.len() > 0 {
        lemma_plain_names(base, comps.drop_last());
    }
}

/// A link sends the walk only to plain names, counted from a directory that the
/// walk holds: the one of the link or the root.
pub proof fn law_links_stay_below(
    root: Seq<u16>,
    pos: Seq<Seq<u16>>,
    target: Seq<u16>,
    relative: bool,
)
    requires
        all_plain(pos),
    ensures
        match rebase_of(root, pos, target, relative) {
            Ok(RebaseView::Stay(list)) => all_plain(list),
            Ok(RebaseView::Relocate(list)) => all_plain(list),
            Err(_) => true,
        },
{
    let comps = names(target);
    lemma_followed_plain(pos, comps);
    if followed(pos, comps) is Ok {
        lemma_plain_names(pos, comps);
    }
    if let Some(rest) = below_root(root, target) {
        lemma_followed_plain(Seq::empty(), rest);
    }
}

/// A path with an extended or device prefix is refused whatever the root is.
pub proof fn law_prefixes_are_refused(root: Seq<u16>, rel: Seq<u16>)
    requires
        extended(rel) || device(rel),
    ensures
        components_under(root, rel) is Err,
        relative_components(rel) is Err,
{
}

/// A path that begins with a drive and no separator behind it is refused whatever
/// the root is.
pub proof fn law_drive_relative_paths_are_refused(root: Seq<u16>, rel: Seq<u16>)
    requires
        drive_relative(rel),
    ensures
        components_under(root, rel) == Err::<Seq<Seq<u16>>, PathHazard>(PathHazard::DriveRelative),
        relative_components(rel) == Err::<Seq<Seq<u16>>, PathHazard>(PathHazard::DriveRelative),
{
}

/// A root is below itself, with nothing behind it, wherever its form can be
/// read.
pub proof fn law_a_root_is_below_itself(root: Seq<u16>)
    requires
        parsed_root(root) is Some,
    ensures
        below_root(root, root) == Some(Seq::<Seq<u16>>::empty()),
{
    let (form, comps) = parsed_root(root)->0;
    assert(comps.skip(comps.len() as int) =~= Seq::<Seq<u16>>::empty());
}

/// The names of a path stand between separators, of either kind; empty ones are
/// none.
pub proof fn law_names_stand_between_separators(name: Seq<u16>, u: u16, rest: Seq<u16>)
    requires
        forall|i: int| 0 <= i < name.len() ==> (#[trigger] name[i]) != 92 && name[i] != 47,
        u == 92 || u == 47,
    ensures
        names(Seq::empty()) == Seq::<Seq<u16>>::empty(),
        name.len() > 0 ==> names(name) == seq![name] && names(name + seq![u] + rest) == seq![name]
            + names(rest),
        names(seq![u] + rest) == names(rest),
{
    lemma_sep_index(name, name.len() as int);
    let s = name + seq![u] + rest;
    assert forall|j: int| 0 <= j < name.len() implies !sep(#[trigger] s[j]) by {
        assert(s[j] == name[j]);
    }
    assert(sep(s[name.len() as int]));
    lemma_sep_index(s, name.len() as int);
    assert(s.take(name.len() as int) =~= name);
    assert(s.skip(name.len() as int + 1) =~= rest);
    assert((seq![u] + rest)[0] == u);
    assert((seq![u] + rest).skip(1) =~= rest);
}

/// What is wrong with a name: nothing, unless it is empty or holds a NUL, a colon
/// or a separator.
pub proof fn law_what_is_wrong_with_a_name(comp: Seq<u16>)
    ensures
        comp.len() == 0 ==> component_hazard(comp) == Some(PathHazard::Rooted),
        comp.contains(0) ==> component_hazard(comp) == Some(PathHazard::Nul),
        comp.contains(58) && !comp.contains(0) ==> component_hazard(comp) == Some(
            PathHazard::AlternateDataStream,
        ),
        (comp.contains(92) || comp.contains(47)) && !comp.contains(58) && !comp.contains(0)
            ==> component_hazard(comp) == Some(PathHazard::Separator),
        comp.len() > 0 && !comp.contains(0) && !comp.contains(58) && !comp.contains(92)
            && !comp.contains(47) ==> component_hazard(comp) is None,
{
    if comp.contains(92) {
        let k = choose|k: int| 0 <= k < comp.len() && comp[k] == 92;
        assert(sep(comp[k]));
    }
    if comp.contains(47) {
        let k = choose|k: int| 0 <= k < comp.len() && comp[k] == 47;
        assert(sep(comp[k]));
    }
    if exists|i: int| 0 <= i < comp.len() && sep(#[trigger] comp[i]) {
        let i = choose|i: int| 0 <= i < comp.len() && sep(#[trigger] comp[i]);
        assert(comp.contains(comp[i]));
    }
}

/// The names that a caller gives are taken one by one: a dot is dropped, two dots
/// are refused, and so is what is wrong; the first refusal counts.
pub proof fn law_a_callers_names_are_taken_one_by_one(comps: Seq<Seq<u16>>, name: Seq<u16>)
    ensures
        caller_components(Seq::empty()) == Ok::<Seq<Seq<u16>>, PathHazard>(Seq::empty()),
        caller_components(comps) is Err ==> caller_components(comps.push(name))
            == caller_components(comps),
        caller_components(comps) matches Ok(list) ==> {
            let r = caller_components(comps.push(name));
            &&& name == seq![46u16] ==> r == Ok::<Seq<Seq<u16>>, PathHazard>(list)
            &&& name == seq![46u16, 46u16] ==> r == Err::<Seq<Seq<u16>>, PathHazard>(
                PathHazard::ParentDir,
            )
            &&& name != seq![46u16] && name != seq![46u16, 46u16] && component_hazard(name) is None
                ==> r == Ok::<Seq<Seq<u16>>, PathHazard>(list.push(name))
            &&& name != seq![46u16] && name != seq![46u16, 46u16] ==> (component_hazard(
                name,
            ) matches Some(h) ==> r == Err::<Seq<Seq<u16>>, PathHazard>(h))
        },
{
    assert(comps.push(name).drop_last() =~= comps);
    assert(seq![46u16].len() != seq![46u16, 46u16].len());
}

/// Which paths of a caller are accepted. A plain relative path gives its names, a
/// rooted one those below the root, and no path more than 4096.
pub proof fn law_which_paths_are_accepted(root: Seq<u16>, rel: Seq<u16>, list: Seq<Seq<u16>>)
    requires
        !extended(rel),
        !device(rel),
        !drive_relative(rel),
        rel.len() > 0,
    ensures
        !rooted(rel) && caller_components(names(rel)) == Ok::<Seq<Seq<u16>>, PathHazard>(list)
            && list.len() <= 4096 ==> components_under(root, rel) == Ok::<
            Seq<Seq<u16>>,
            PathHazard,
        >(list),
        !rooted(rel) && caller_components(names(rel)) == Ok::<Seq<Seq<u16>>, PathHazard>(list)
            && list.len() > 4096 ==> components_under(root, rel) == Err::<
            Seq<Seq<u16>>,
            PathHazard,
        >(PathHazard::TooManyComponents),
        rooted(rel) && below_root(root, rel) is None ==> components_under(root, rel) == Err::<
            Seq<Seq<u16>>,
            PathHazard,
        >(PathHazard::OutsideWorkspace),
        rooted(rel) ==> (below_root(root, rel) matches Some(rest) ==> (caller_components(rest)
            == Ok::<Seq<Seq<u16>>, PathHazard>(list) && list.len() <= 4096 ==> components_under(
            root,
            rel,
        ) == Ok::<Seq<Seq<u16>>, PathHazard>(list))),
        components_under(root, Seq::empty()) == Ok::<Seq<Seq<u16>>, PathHazard>(Seq::empty()),
{
}

/// What a rooted path is: it begins with a separator, or with a letter and a colon.
pub proof fn law_which_paths_are_rooted(s: Seq<u16>)
    ensures
        rooted(s) <==> (s.len() > 0 && (s[0] == 92 || s[0] == 47)) || (s.len() >= 2 && s[1] == 58
            && (65 <= s[0] <= 90 || 97 <= s[0] <= 122)),
        drive_relative(s) <==> s.len() >= 2 && s[1] == 58 && (65 <= s[0] <= 90 || 97 <= s[0] <= 122)
            && !(s.len() > 2 && (s[2] == 92 || s[2] == 47)),
        extended(s) <==> s.len() >= 4 && s[0] == 92 && (s[1] == 92 || s[1] == 63) && s[2] == 63
            && s[3] == 92,
        device(s) <==> s.len() >= 4 && s[0] == 92 && s[1] == 92 && s[2] == 46 && s[3] == 92,
{
}

/// An absolute path hangs from its drive, whatever the case of its letter, or from
/// a share of a server, and its names follow.
#[verifier::rlimit(20)]
pub proof fn law_what_a_path_hangs_from(
    letter: u16,
    rest: Seq<u16>,
    server: Seq<u16>,
    share: Seq<u16>,
)
    requires
        65 <= letter <= 90 || 97 <= letter <= 122,
        server.len() > 0,
        share.len() > 0,
        forall|i: int| 0 <= i < server.len() ==> (#[trigger] server[i]) != 92 && server[i] != 47,
        forall|i: int| 0 <= i < share.len() ==> (#[trigger] share[i]) != 92 && share[i] != 47,
        server[0] != 63,
    ensures
        (parsed_root(seq![letter, 58, 92] + rest) matches Some((RootView::Drive(d), list)) && d == seq![
            if letter <= 90 {
                (letter + 32) as u16
            } else {
                letter
            },
            58,
        ] && list == names(rest)),
        (parsed_root(seq![92u16, 92] + server + seq![92u16] + share + seq![92u16] + rest)
            matches Some((RootView::Unc(a, b), list)) && a == lowered(server) && b == lowered(share)
            && list == names(rest)),
{
    let s = seq![letter, 58, 92] + rest;
    assert(s[0] == letter && s[1] == 58 && s[2] == 92);
    assert(!extended(s));
    assert(s.take(2) =~= seq![letter, 58]);
    assert(lowered(s.take(2)) =~= seq![low(letter), low(58)]);
    assert(s.skip(2) =~= seq![92u16] + rest);
    law_names_stand_between_separators(Seq::empty(), 92, rest);
    assert(!unc_word(s));
    let u = seq![92u16, 92] + server + seq![92u16] + share + seq![92u16] + rest;
    assert(u[0] == 92 && u[1] == 92 && u[2] == server[0]);
    assert(!extended(u));
    assert(!unc_word(u));
    let tail = share + seq![92u16] + rest;
    law_names_stand_between_separators(share, 92, rest);
    law_names_stand_between_separators(server, 92, tail);
    let inner = server + seq![92u16] + tail;
    law_names_stand_between_separators(Seq::empty(), 92, inner);
    law_names_stand_between_separators(Seq::empty(), 92, seq![92u16] + inner);
    assert(u =~= seq![92u16] + (seq![92u16] + inner));
    let all = seq![server] + (seq![share] + names(rest));
    assert(names(u) == all);
    assert(all[0] == server && all[1] == share);
    assert(all.skip(2) =~= names(rest));
}

/// A path lies below a root that hangs from the same, where its names begin with
/// those of the root but for the case of ASCII letters; what is below is the names
/// that follow.
pub proof fn law_what_lies_below_a_root(
    root: Seq<u16>,
    path: Seq<u16>,
    at: RootView,
    head: Seq<Seq<u16>>,
    written: Seq<Seq<u16>>,
    rest: Seq<Seq<u16>>,
)
    requires
        parsed_root(root) == Some((at, head)),
        parsed_root(path) == Some((at, written + rest)),
        written.len() == head.len(),
        forall|i: int| 0 <= i < head.len() ==> same_ci(#[trigger] written[i], head[i]),
    ensures
        below_root(root, path) == Some(rest),
{
    let list = written + rest;
    assert forall|i: int| 0 <= i < head.len() implies same_ci(#[trigger] list[i], head[i]) by {
        assert(list[i] == written[i]);
    }
    assert(list.skip(head.len() as int) =~= rest);
}

/// A path that hangs from nothing, from something else, or whose names do not begin
/// with those of the root, does not lie below it.
pub proof fn law_what_does_not_lie_below_a_root(root: Seq<u16>, path: Seq<u16>, i: int)
    ensures
        parsed_root(root) is None || parsed_root(path) is None ==> below_root(root, path) is None,
        parsed_root(root) matches Some((a, head)) ==> (parsed_root(path) matches Some((b, list)) ==> {
            &&& list.len() < head.len() ==> below_root(root, path) is None
            &&& 0 <= i < head.len() && i < list.len() && !same_ci(list[i], head[i]) ==> below_root(
                root,
                path,
            ) is None
            &&& !same_root(a, b) ==> below_root(root, path) is None
        }),
{
}

/// Names are the same where they differ in nothing but the case of ASCII letters.
pub proof fn law_case_alone_makes_no_difference(a: Seq<u16>, b: Seq<u16>)
    ensures
        same_ci(a, b) <==> a.len() == b.len() && forall|i: int|
            0 <= i < a.len() ==> {
                ||| #[trigger] a[i] == b[i]
                ||| 65 <= a[i] <= 90 && b[i] == a[i] + 32
                ||| 65 <= b[i] <= 90 && a[i] == b[i] + 32
            },
{
    if same_ci(a, b) {
        assert(lowered(a).len() == lowered(b).len());
        assert forall|i: int| 0 <= i < a.len() implies ({
            ||| #[trigger] a[i] == b[i]
            ||| 65 <= a[i] <= 90 && b[i] == a[i] + 32
            ||| 65 <= b[i] <= 90 && a[i] == b[i] + 32
        }) by {
            assert(lowered(a)[i] == lowered(b)[i]);
        }
    }
    if a.len() == b.len() && forall|i: int|
        0 <= i < a.len() ==> {
            ||| #[trigger] a[i] == b[i]
            ||| 65 <= a[i] <= 90 && b[i] == a[i] + 32
            ||| 65 <= b[i] <= 90 && a[i] == b[i] + 32
        } {
        assert forall|i: int| 0 <= i < a.len() implies lowered(a)[i] == lowered(b)[i] by {
            assert(a[i] == b[i] || a[i] != b[i]);
        }
        assert(lowered(a) =~= lowered(b));
    }
}

/// Names of a target are followed one by one: a dot stays, two dots go up but not
/// above the top, and a name goes down.
pub proof fn law_names_are_followed_one_by_one(
    base: Seq<Seq<u16>>,
    comps: Seq<Seq<u16>>,
    name: Seq<u16>,
)
    ensures
        followed(base, Seq::empty()) == Ok::<Seq<Seq<u16>>, PathHazard>(base),
        followed(base, comps) is Err ==> followed(base, comps.push(name)) == followed(base, comps),
        followed(base, comps) matches Ok(at) ==> {
            let r = followed(base, comps.push(name));
            &&& name == seq![46u16] ==> r == Ok::<Seq<Seq<u16>>, PathHazard>(at)
            &&& name == seq![46u16, 46u16] && at.len() > 0 ==> r == Ok::<Seq<Seq<u16>>, PathHazard>(
                at.drop_last(),
            )
            &&& name == seq![46u16, 46u16] && at.len() == 0 ==> r is Err
            &&& name != seq![46u16] && name != seq![46u16, 46u16] && component_hazard(name) is None
                ==> r == Ok::<Seq<Seq<u16>>, PathHazard>(at.push(name))
            &&& name != seq![46u16] && name != seq![46u16, 46u16] && component_hazard(name) is Some
                ==> r is Err
        },
{
    assert(comps.push(name).drop_last() =~= comps);
    assert(seq![46u16].len() != seq![46u16, 46u16].len());
}

/// Where a link leads: a relative target from the directory of the link, an
/// absolute one from the root, and neither out of the root; a target that is not
/// written as its flag says leads nowhere.
pub proof fn law_where_a_link_leads(
    root: Seq<u16>,
    pos: Seq<Seq<u16>>,
    target: Seq<u16>,
    relative: bool,
)
    ensures
        ({
            let r = rebase_of(root, pos, target, relative);
            let up = names(target).contains(seq![46u16, 46u16]);
            &&& relative == rooted(target) ==> r is Err
            &&& relative && !rooted(target) ==> match followed(pos, names(target)) {
                Err(h) => r == Err::<RebaseView, PathHazard>(h),
                Ok(at) => (up ==> r == Ok::<RebaseView, PathHazard>(RebaseView::Relocate(at))) && (
                !up ==> r == Ok::<RebaseView, PathHazard>(
                    RebaseView::Stay(plain_names(names(target))),
                )),
            }
            &&& !relative && rooted(target) ==> match below_root(root, target) {
                None => r == Err::<RebaseView, PathHazard>(PathHazard::OutsideWorkspace),
                Some(rest) => match followed(Seq::empty(), rest) {
                    Err(h) => r == Err::<RebaseView, PathHazard>(h),
                    Ok(at) => r == Ok::<RebaseView, PathHazard>(RebaseView::Relocate(at)),
                },
            }
        }),
{
}

/// Where nothing goes up, following the names of a target ends below the directory
/// by those names.
pub proof fn law_plain_targets_lead_down(pos: Seq<Seq<u16>>, comps: Seq<Seq<u16>>)
    requires
        !comps.contains(seq![46u16, 46u16]),
        followed(pos, comps) is Ok,
    ensures
        followed(pos, comps) == Ok::<Seq<Seq<u16>>, PathHazard>(pos + plain_names(comps)),
    decreases comps.len(),
{
    if comps.len() == 0 {
        assert(pos + plain_names(comps) =~= pos);
    } else {
        let most = comps.drop_last();
        assert(!most.contains(seq![46u16, 46u16])) by {
            if most.contains(seq![46u16, 46u16]) {
                let k = choose|k: int| 0 <= k < most.len() && most[k] == seq![46u16, 46u16];
                assert(comps[k] == seq![46u16, 46u16]);
            }
        }
        assert(comps.contains(comps[comps.len() - 1]));
        law_plain_targets_lead_down(pos, most);
        assert((pos + plain_names(most)).push(comps.last()) =~= pos + plain_names(most).push(
            comps.last(),
        ));
    }
}

/// A number in two bytes, the lower one first.
pub open spec fn two_bytes(n: nat) -> Seq<u8> {
    seq![(n % 256) as u8, (n / 256) as u8]
}

/// Units in two bytes each.
pub open spec fn bytes_of_units(units: Seq<u16>) -> Seq<u8> {
    Seq::new(
        2 * units.len(),
        |i: int|
            if i % 2 == 0 {
                (units[i / 2] as nat % 256) as u8
            } else {
                (units[i / 2] as nat / 256) as u8
            },
    )
}

/// The places and lengths of the two names of a link, of which the second stands
/// behind the first.
pub open spec fn name_table(substitute: Seq<u16>, print: Seq<u16>) -> Seq<u8> {
    two_bytes(0) + two_bytes(2 * substitute.len()) + two_bytes(2 * substitute.len()) + two_bytes(
        2 * print.len(),
    )
}

/// The body of a symbolic link, with these flags.
pub open spec fn symlink_body(flags: u8, substitute: Seq<u16>, print: Seq<u16>) -> Seq<u8> {
    name_table(substitute, print) + seq![flags, 0u8, 0u8, 0u8] + bytes_of_units(substitute)
        + bytes_of_units(print)
}

/// The body of a mount point.
pub open spec fn mount_body(substitute: Seq<u16>, print: Seq<u16>) -> Seq<u8> {
    name_table(substitute, print) + bytes_of_units(substitute) + bytes_of_units(print)
}

proof fn lemma_two_bytes(n: nat, before: Seq<u8>, after: Seq<u8>)
    requires
        n < 65536,
    ensures
        le16(before + two_bytes(n) + after, before.len() as int) == n,
{
    let d = before + two_bytes(n) + after;
    let at = before.len() as int;
    assert(d[at] == (n % 256) as u8 && d[at + 1] == (n / 256) as u8);
    assert(n % 256 + 256 * (n / 256) == n);
}

proof fn lemma_units_read(units: Seq<u16>, before: Seq<u8>, after: Seq<u8>)
    ensures
        units_at(before + bytes_of_units(units) + after, before.len() as int, units.len()) == units,
{
    let b = bytes_of_units(units);
    let d = before + b + after;
    let at = before.len() as int;
    let read = units_at(d, at, units.len());
    assert forall|i: int| 0 <= i < units.len() implies read[i] == units[i] by {
        assert((2 * i) % 2 == 0 && (2 * i) / 2 == i);
        assert((2 * i + 1) % 2 == 1 && (2 * i + 1) / 2 == i);
        assert(d[at + 2 * i] == b[2 * i]);
        assert(d[at + 2 * i + 1] == b[2 * i + 1]);
        let u = units[i] as nat;
        assert(u % 256 + 256 * (u / 256) == u);
    }
    assert(read =~= units);
}

proof fn lemma_name_table(substitute: Seq<u16>, print: Seq<u16>, rest: Seq<u8>)
    requires
        2 * substitute.len() < 65536,
        2 * print.len() < 65536,
    ensures
        ({
            let body = name_table(substitute, print) + rest;
            &&& le16(body, 0) == 0
            &&& le16(body, 2) == 2 * substitute.len()
            &&& le16(body, 4) == 2 * substitute.len()
            &&& le16(body, 6) == 2 * print.len()
        }),
        name_table(substitute, print).len() == 8,
{
    let (n, m) = (2 * substitute.len(), 2 * print.len());
    let (a, b, c, d) = (two_bytes(0), two_bytes(n), two_bytes(n), two_bytes(m));
    let body = name_table(substitute, print) + rest;
    lemma_two_bytes(0, Seq::empty(), b + c + d + rest);
    assert(Seq::<u8>::empty() + a + (b + c + d + rest) =~= body);
    lemma_two_bytes(n, a, c + d + rest);
    assert(a + b + (c + d + rest) =~= body);
    lemma_two_bytes(n, a + b, d + rest);
    assert(a + b + c + (d + rest) =~= body);
    lemma_two_bytes(m, a + b + c, rest);
    assert(a + b + c + d + rest =~= body);
}

proof fn lemma_names_read(
    substitute: Seq<u16>,
    print: Seq<u16>,
    head: Seq<u8>,
    body: Seq<u8>,
)
    requires
        substitute.len() <= 15000,
        print.len() <= 15000,
        !substitute.contains(0),
        !print.contains(0),
        body == head + bytes_of_units(substitute) + bytes_of_units(print),
    ensures
        field_of(body, head.len() as int, 2 * substitute.len()) == Ok::<Seq<u16>, ReparseError>(
            substitute,
        ),
        field_of(body, (head.len() + 2 * substitute.len()) as int, 2 * print.len()) == Ok::<
            Seq<u16>,
            ReparseError,
        >(print),
{
    lemma_units_read(substitute, head, bytes_of_units(print));
    lemma_units_read(print, head + bytes_of_units(substitute), Seq::empty());
    assert(head + bytes_of_units(substitute) + bytes_of_units(print) + Seq::<u8>::empty() =~= body);
    assert((2 * substitute.len()) % 2 == 0 && (2 * substitute.len()) / 2 == substitute.len());
    assert((2 * print.len()) % 2 == 0 && (2 * print.len()) / 2 == print.len());
    if substitute.len() == 0 {
        assert(substitute =~= Seq::empty());
    }
    if print.len() == 0 {
        assert(print =~= Seq::empty());
    }
}

/// A reparse buffer of a symbolic link or a mount point reads as the link that it
/// was written for: its names, and whether a symbolic link is relative.
#[verifier::rlimit(20)]
pub proof fn law_a_link_reads_back(
    flags: u8,
    substitute: Seq<u16>,
    print: Seq<u16>,
    spare: (u8, u8),
)
    requires
        substitute.len() <= 15000,
        print.len() <= 15000,
        !substitute.contains(0),
        !print.contains(0),
    ensures
        ({
            let body = symlink_body(flags, substitute, print);
            let data = seq![0x0cu8, 0, 0, 0xa0] + two_bytes(body.len()) + seq![spare.0, spare.1]
                + body;
            body.len() < 65536 ==> reparse_of(data) == Ok::<ReparseView, ReparseError>(
                ReparseView { tag: 0xA000_000C, flags: flags as u32, substitute, print },
            )
        }),
        ({
            let body = mount_body(substitute, print);
            let data = seq![0x03u8, 0, 0, 0xa0] + two_bytes(body.len()) + seq![spare.0, spare.1]
                + body;
            body.len() < 65536 ==> reparse_of(data) == Ok::<ReparseView, ReparseError>(
                ReparseView { tag: 0xA000_0003, flags: 0, substitute, print },
            )
        }),
{
    let table = name_table(substitute, print);
    let mark = seq![flags, 0u8, 0u8, 0u8];
    let tail = bytes_of_units(substitute) + bytes_of_units(print);
    let body = symlink_body(flags, substitute, print);
    if body.len() < 65536 {
        lemma_name_table(substitute, print, mark + tail);
        assert(table + (mark + tail) =~= body);
        assert(body[8] == flags && body[9] == 0 && body[10] == 0 && body[11] == 0);
        lemma_names_read(substitute, print, table + mark, body);
        lemma_reparse_head(0x0c, body, spare);
    }
    let mount = mount_body(substitute, print);
    if mount.len() < 65536 {
        lemma_name_table(substitute, print, tail);
        assert(table + tail =~= mount);
        lemma_names_read(substitute, print, table, mount);
        lemma_reparse_head(0x03, mount, spare);
    }
}

proof fn lemma_reparse_head(tag: u8, body: Seq<u8>, spare: (u8, u8))
    requires
        body.len() < 65536,
    ensures
        ({
            let data = seq![tag, 0, 0, 0xa0] + two_bytes(body.len()) + seq![spare.0, spare.1] + body;
            &&& data.len() == 8 + body.len()
            &&& le16(data, 4) == body.len()
            &&& le32(data, 0) == 0xA000_0000 + tag as nat
            &&& data.subrange(8, 8 + body.len() as int) == body
        }),
{
    let data = seq![tag, 0, 0, 0xa0] + two_bytes(body.len()) + seq![spare.0, spare.1] + body;
    lemma_two_bytes(body.len(), seq![tag, 0, 0, 0xa0], seq![spare.0, spare.1] + body);
    assert(seq![tag, 0, 0, 0xa0] + two_bytes(body.len()) + (seq![spare.0, spare.1] + body)
        =~= data);
    assert(data[0] == tag && data[1] == 0 && data[2] == 0 && data[3] == 0xa0);
    assert(data.subrange(8, 8 + body.len() as int) =~= body);
}

/// A buffer that is cut short, or that is of another kind, reads as no link.
pub proof fn law_other_buffers_are_no_links(data: Seq<u8>)
    ensures
        data.len() < 8 ==> reparse_of(data) == Err::<ReparseView, ReparseError>(
            ReparseError::TooShort,
        ),
        data.len() >= 8 && data.len() < 8 + data[4] + 256 * data[5] ==> reparse_of(data) == Err::<
            ReparseView,
            ReparseError,
        >(ReparseError::Truncated),
        data.len() >= 8 && data.len() >= 8 + data[4] + 256 * data[5] && !((data[0] == 0x0c || data[0]
            == 0x03) && data[1] == 0 && data[2] == 0 && data[3] == 0xa0) ==> reparse_of(data)
            == Err::<ReparseView, ReparseError>(ReparseError::UnsupportedTag),
{
    if data.len() >= 8 {
        let t = data[0] + 256 * data[1] + 65536 * data[2] + 16777216 * data[3];
        assert(le32(data, 0) == t);
    }
}

/// What kind of error a hazard is.
pub proof fn law_hazards_are_refusals(hazard: PathHazard, rel: Seq<char>)
    ensures
        hazard is Nul ==> hazard_fault(hazard, rel).kind == ErrorKind::Malformed,
        hazard is TooManyComponents ==> hazard_fault(hazard, rel).kind == ErrorKind::Oversized,
        !(hazard is Nul) && !(hazard is TooManyComponents) ==> hazard_fault(hazard, rel).kind
            == ErrorKind::Permission,
        hazard is OutsideWorkspace ==> hazard_fault(hazard, rel).message
            == "path escapes workspace: "@ + rel,
        hazard is ParentDir ==> hazard_fault(hazard, rel).message == "path traversal rejected: "@
            + rel,
{
}

/// The errors of a reparse buffer are named as they are.
pub proof fn law_reparse_errors_are_named(e: ReparseError)
    ensures
        e is TooShort ==> e.name() == "TooShort"@,
        e is Truncated ==> e.name() == "Truncated"@,
        e is OddLength ==> e.name() == "OddLength"@,
        e is TargetTooLong ==> e.name() == "TargetTooLong"@,
        e is NulInTarget ==> e.name() == "NulInTarget"@,
        e is UnsupportedTag ==> e.name() == "UnsupportedTag"@,
{
}

/// A name in a reparse buffer has an even number of bytes within the buffer, holds
/// no NUL and is not too long.
pub proof fn law_which_names_are_read(body: Seq<u8>, start: int, len: nat)
    ensures
        len % 2 != 0 ==> field_of(body, start, len) == Err::<Seq<u16>, ReparseError>(
            ReparseError::OddLength,
        ),
        len % 2 == 0 && len > 0 && start + len > body.len() ==> field_of(body, start, len) == Err::<
            Seq<u16>,
            ReparseError,
        >(ReparseError::Truncated),
        len % 2 == 0 && start + len <= body.len() && len > 65536 ==> field_of(body, start, len)
            == Err::<Seq<u16>, ReparseError>(ReparseError::TargetTooLong),
        field_of(body, start, 0) == Ok::<Seq<u16>, ReparseError>(Seq::empty()),
        field_of(body, start, len) matches Ok(name) ==> name.len() == len / 2 && !name.contains(0),
{
}

/// A path that is prefixed, on a device, or relative to a drive is refused whatever
/// the root.
pub proof fn law_odd_paths_are_refused(root: Seq<u16>, rel: Seq<u16>)
    requires
        rel.len() > 0,
    ensures
        extended(rel) ==> components_under(root, rel) == Err::<Seq<Seq<u16>>, PathHazard>(
            PathHazard::ExtendedPrefix,
        ),
        device(rel) && !extended(rel) ==> components_under(root, rel) == Err::<
            Seq<Seq<u16>>,
            PathHazard,
        >(PathHazard::DeviceNamespace),
        drive_relative(rel) ==> components_under(root, rel) == Err::<Seq<Seq<u16>>, PathHazard>(
            PathHazard::DriveRelative,
        ),
        relative_components(rel) is Ok ==> !rooted(rel),
        !rooted(rel) ==> relative_components(rel) == caller_components(names(rel)),
{
}

/// A prefixed path hangs from what it hangs from without the prefix.
pub proof fn law_a_prefix_changes_nothing(u: u16, rest: Seq<u16>, share: Seq<u16>)
    requires
        u == 92 || u == 63,
        !extended(rest),
    ensures
        parsed_root(seq![92u16, u, 63, 92] + rest) == parsed_root(rest),
        parsed_root(seq![92u16, u, 63, 92, 85, 78, 67, 92] + share) == unc_form(names(share)),
        (unc_form(names(share)) matches Some((RootView::Unc(a, b), list)) ==> names(share).len()
            >= 2 && a == lowered(names(share)[0]) && b == lowered(names(share)[1]) && list == names(
            share,
        ).skip(2)),
        names(share).len() < 2 ==> unc_form(names(share)) is None,
{
    let s = seq![92u16, u, 63, 92] + rest;
    assert(s[0] == 92 && s[1] == u && s[2] == 63 && s[3] == 92);
    assert(extended(s));
    assert(s.skip(4) =~= rest);
    assert(unprefixed(s) == rest);
    assert(unprefixed(rest) == rest);
    let t = seq![92u16, u, 63, 92, 85, 78, 67, 92] + share;
    assert(t[0] == 92 && t[1] == u && t[2] == 63 && t[3] == 92);
    assert(extended(t));
    let tail = t.skip(4);
    assert(tail[0] == 85 && tail[1] == 78 && tail[2] == 67 && tail[3] == 92);
    assert(unc_word(tail));
    assert(tail.skip(4) =~= share);
}

} // verus!

//! The walk to an entry below a workspace root on Windows, one component at a
//! time.
//!
//! The walk itself touches no file system: [`WinWalk`] says what is to be done
//! next ([`Step`]) and is told what came of it ([`Event`]). Whoever drives it
//! holds two handles, the current directory and the entry opened last, and
//! opens every name relative to the current directory, without following it.
//! A reparse point is handed to the walk, which follows it only where its
//! target is verified to lie below the root, and at most [`MAX_SYMLINK_HOPS`]
//! times.
use vstd::prelude::*;

use crate::error::{Error, ErrorKind, PathText};
use crate::error;
use crate::text;
use crate::winpath::{
    copy_names, copy_units, lexical_components, parse_reparse_data, rebase_target,
    strip_root_prefix, ParsedReparse, Rebase, IO_REPARSE_TAG_SYMLINK, MAX_COMPONENTS,
    MAX_SYMLINK_HOPS, SYMLINK_FLAG_RELATIVE,
};
use crate::winpath;

verus! {

/// The attribute bit of a reparse point.
pub const FILE_ATTRIBUTE_REPARSE_POINT: u32 = 0x400;

/// The attribute bit of a directory.
pub const FILE_ATTRIBUTE_DIRECTORY: u32 = 0x10;

pub const STATUS_OBJECT_NAME_NOT_FOUND: u32 = 0xC000_0034;

pub const STATUS_OBJECT_PATH_NOT_FOUND: u32 = 0xC000_003A;

pub const STATUS_NOT_A_DIRECTORY: u32 = 0xC000_0103;

pub const STATUS_ACCESS_DENIED: u32 = 0xC000_0022;

pub const ERROR_FILE_NOT_FOUND: u32 = 2;

pub const ERROR_PATH_NOT_FOUND: u32 = 3;

pub const ERROR_ACCESS_DENIED: u32 = 5;

pub const ERROR_INSUFFICIENT_BUFFER: u32 = 122;

pub const ERROR_MORE_DATA: u32 = 234;

/// The longest name, in units, that can be opened.
pub const MAX_NAME_UNITS: usize = 32767;

/// The size of the first buffer that reparse data is read into.
pub const INITIAL_REPARSE_BUF: usize = 16384;

/// The largest buffer that reparse data is read into.
pub const MAX_REPARSE_BUF: usize = 131072;

// -------------------------------------------------------------------- texts

/// UTF-16 read as text: a high surrogate and the low one behind it are one
/// character, any other surrogate is U+FFFD.
pub open spec fn lossy(u: Seq<u16>) -> Seq<char>
    decreases u.len(),
{
    if u.len() == 0 {
        Seq::empty()
    } else if u[0] < 0xd800 || u[0] > 0xdfff {
        seq![u[0] as char] + lossy(u.skip(1))
    } else if u[0] <= 0xdbff && u.len() >= 2 && 0xdc00 <= u[1] <= 0xdfff {
        seq![(0x10000 + (u[0] - 0xd800) * 0x400 + (u[1] - 0xdc00)) as char] + lossy(u.skip(2))
    } else {
        seq!['\u{fffd}'] + lossy(u.skip(1))
    }
}

/// Calls `String::from_utf16_lossy`, which decodes UTF-16 and puts the
/// replacement character for every surrogate that is not half of a pair.
#[verifier::external_body]
pub(crate) fn lossy_text(u: &[u16]) -> (r: String)
    ensures
        r@ == lossy(u@),
{
    String::from_utf16_lossy(u)
}

/// The digit of value `d`, with letters of the given case.
pub open spec fn hex_char(d: nat, upper: bool) -> char {
    if d < 10 {
        (('0' as u32) + d) as char
    } else if upper {
        (('A' as u32) + d - 10) as char
    } else {
        (('a' as u32) + d - 10) as char
    }
}

/// `n` in hexadecimal with at least `width` digits.
pub open spec fn hex(n: nat, width: nat, upper: bool) -> Seq<char>
    decreases n, width,
{
    if n < 16 && width <= 1 {
        seq![hex_char(n, upper)]
    } else {
        hex(n / 16, (if width > 0 { width - 1 } else { 0 }) as nat, upper).push(
            hex_char(n % 16, upper),
        )
    }
}

fn push_hex(out: &mut String, n: u64, width: usize, upper: bool)
    ensures
        final(out)@ == old(out)@ + hex(n as nat, width as nat, upper),
    decreases n, width,
{
    let d: u8 = (n % 16) as u8;
    let c: char = if d < 10 {
        (48 + d) as char
    } else if upper {
        (55 + d) as char
    } else {
        (87 + d) as char
    };
    if n < 16 && width <= 1 {
        text::push_one(out, c);
    } else {
        push_hex(out, n / 16, if width > 0 { width - 1 } else { 0 }, upper);
        out.push(c);
        proof {
            let w = (if width > 0 { width - 1 } else { 0 }) as nat;
            assert((old(out)@ + hex((n / 16) as nat, w, upper)).push(c) =~= old(out)@ + hex(
                (n / 16) as nat,
                w,
                upper,
            ).push(c));
        }
    }
}

/// The names of a position, each behind a backslash; a backslash for the root.
pub open spec fn position_text(pos: Seq<Seq<u16>>) -> Seq<char>
    decreases pos.len(),
{
    if pos.len() == 0 {
        "\\"@
    } else if pos.len() == 1 {
        "\\"@ + lossy(pos[0])
    } else {
        position_text(pos.drop_last()) + "\\"@ + lossy(pos.last())
    }
}

fn render_pos(pos: &Vec<Vec<u16>>) -> (r: String)
    ensures
        r@ == position_text(winpath::parts(pos@)),
{
    let mut out: String = "\\".to_owned();
    let ghost all = winpath::parts(pos@);
    let mut i: usize = 0;
    proof {
        assert(all.take(0) =~= Seq::<Seq<u16>>::empty());
    }
    while i < pos.len()
        invariant
            i <= pos.len(),
            all == winpath::parts(pos@),
            out@ == position_text(all.take(i as int)),
        decreases pos.len() - i,
    {
        proof {
            assert(all.take(i as int + 1).drop_last() =~= all.take(i as int));
            assert(all.take(i as int + 1).last() == all[i as int]);
        }
        if i > 0 {
            out.append("\\");
        }
        out.append(lossy_text(pos[i].as_slice()).as_str());
        i = i + 1;
    }
    proof {
        assert(all.take(i as int) =~= all);
    }
    out
}

/// Where in the walk something was refused.
pub open spec fn diag_text(index: nat, comp: Seq<u16>, pos: Seq<Seq<u16>>) -> Seq<char> {
    "at component "@ + text::decimal(index) + " ("@ + text::debug_of(lossy(comp)) + "), resolved "@
        + text::debug_of(position_text(pos))
}

fn walk_diag(index: usize, comp: &[u16], pos: &Vec<Vec<u16>>) -> (r: String)
    ensures
        r@ == diag_text(index as nat, comp@, winpath::parts(pos@)),
{
    let mut out: String = text::cat4(
        "at component ",
        text::decimal_text(index as u64).as_str(),
        " (",
        text::debug_str(lossy_text(comp).as_str()).as_str(),
    );
    out.append("), resolved ");
    out.append(text::debug_str(render_pos(pos).as_str()).as_str());
    out
}

// ------------------------------------------------------------------- faults

/// The error for a failed call on the path shown as `what`.
pub open spec fn win32_fault(what: Seq<char>, code: u32) -> error::FaultView {
    if code == ERROR_FILE_NOT_FOUND || code == ERROR_PATH_NOT_FOUND {
        error::fault(ErrorKind::NotFound, what)
    } else if code == ERROR_ACCESS_DENIED {
        error::fault(ErrorKind::Permission, what + ": access denied"@)
    } else {
        error::fault(ErrorKind::Internal, what + ": win32 error "@ + text::decimal(code as nat))
    }
}

/// The error for a failed call on the path `what`.
pub fn map_win32(what: &PathText, code: u32) -> (r: Error)
    ensures
        r@ == win32_fault(what.shown@, code),
{
    if code == ERROR_FILE_NOT_FOUND || code == ERROR_PATH_NOT_FOUND {
        Error::not_found(what.shown.as_str().to_owned())
    } else if code == ERROR_ACCESS_DENIED {
        Error::permission(text::cat2(what.shown.as_str(), ": access denied"))
    } else {
        Error::internal(
            text::cat3(
                what.shown.as_str(),
                ": win32 error ",
                text::decimal_text(code as u64).as_str(),
            ),
        )
    }
}

/// Why an opened root is not a directory to walk in.
pub open spec fn root_fault(root: Seq<char>, attributes: Option<u32>) -> Option<error::FaultView> {
    match attributes {
        None => Some(
            error::fault(
                ErrorKind::Internal,
                "workspace root "@ + root + ": attribute query failed"@,
            ),
        ),
        Some(a) => if a & FILE_ATTRIBUTE_REPARSE_POINT != 0 {
            Some(
                error::fault(
                    ErrorKind::Permission,
                    "workspace root "@ + root + " was swapped for a reparse point"@,
                ),
            )
        } else if a & FILE_ATTRIBUTE_DIRECTORY == 0 {
            Some(
                error::fault(
                    ErrorKind::NotFound,
                    "workspace root "@ + root + " is not a directory"@,
                ),
            )
        } else {
            None
        },
    }
}

/// Accepts an opened root by its attributes: a directory that is no reparse
/// point.
pub fn check_root(root: &PathText, attributes: Option<u32>) -> (r: Result<(), Error>)
    ensures
        match root_fault(root.shown@, attributes) {
            None => r is Ok,
            Some(f) => r matches Err(e) && e@ == f,
        },
{
    match attributes {
        None => Err(
            Error::internal(
                text::cat3("workspace root ", root.shown.as_str(), ": attribute query failed"),
            ),
        ),
        Some(a) => if a & FILE_ATTRIBUTE_REPARSE_POINT != 0 {
            Err(
                Error::permission(
                    text::cat3(
                        "workspace root ",
                        root.shown.as_str(),
                        " was swapped for a reparse point",
                    ),
                ),
            )
        } else if a & FILE_ATTRIBUTE_DIRECTORY == 0 {
            Err(
                Error::not_found(
                    text::cat3("workspace root ", root.shown.as_str(), " is not a directory"),
                ),
            )
        } else {
            Ok(())
        },
    }
}

/// What follows a failed read of reparse data into a buffer of `len` bytes: the
/// size of the next buffer, or the error.
pub open spec fn reparse_retry_of(len: nat, code: u32) -> Result<nat, error::FaultView> {
    if code == ERROR_MORE_DATA || code == ERROR_INSUFFICIENT_BUFFER {
        if len >= MAX_REPARSE_BUF {
            Err(
                error::fault(
                    ErrorKind::Oversized,
                    "reparse point data exceeds the 131072-byte bound"@,
                ),
            )
        } else {
            Ok(2 * len)
        }
    } else {
        Err(
            error::fault(
                ErrorKind::Internal,
                "FSCTL_GET_REPARSE_POINT failed: win32 error "@ + text::decimal(code as nat),
            ),
        )
    }
}

/// The size of the next buffer after a failed read of reparse data.
pub fn reparse_retry(len: usize, code: u32) -> (r: Result<usize, Error>)
    ensures
        match reparse_retry_of(len as nat, code) {
            Ok(n) => r == Ok::<usize, Error>(n as usize) && n <= 2 * MAX_REPARSE_BUF,
            Err(f) => r matches Err(e) && e@ == f,
        },
{
    if code == ERROR_MORE_DATA || code == ERROR_INSUFFICIENT_BUFFER {
        if len >= MAX_REPARSE_BUF {
            Err(Error::oversized("reparse point data exceeds the 131072-byte bound".to_owned()))
        } else {
            Ok(2 * len)
        }
    } else {
        Err(
            Error::internal(
                text::cat2(
                    "FSCTL_GET_REPARSE_POINT failed: win32 error ",
                    text::decimal_text(code as u64).as_str(),
                ),
            ),
        )
    }
}

/// The status says that the entry is not there.
pub open spec fn missing_status(status: u32) -> bool {
    status == STATUS_OBJECT_NAME_NOT_FOUND || status == STATUS_OBJECT_PATH_NOT_FOUND
}

/// The error for a component that could not be opened. `last` says that it was
/// the last one; `win32` is the code that stands for `status`.
pub open spec fn open_fault(w: WalkView, status: u32, win32: u32) -> error::FaultView {
    let diag = "component "@ + text::decimal(w.index) + " "@ + text::debug_of(lossy(w.comp))
        + ", resolved "@ + text::debug_of(position_text(w.pos)) + ", NTSTATUS 0x"@ + hex(
        status as nat,
        8,
        true,
    );
    let parent = "parent resolution failed: "@ + w.quoted;
    let last = w.pending.len() == 0;
    if missing_status(status) && last {
        error::fault(ErrorKind::NotFound, w.shown + " ("@ + diag + ")"@)
    } else if status == STATUS_NOT_A_DIRECTORY {
        error::fault(
            ErrorKind::Permission,
            parent + ": component is not a directory ("@ + diag + ")"@,
        )
    } else if last {
        error::fault(
            ErrorKind::Internal,
            w.shown + " ("@ + diag + "; win32 "@ + text::decimal(win32 as nat) + ")"@,
        )
    } else {
        error::fault(ErrorKind::Permission, parent + " ("@ + diag + ")"@)
    }
}

/// The error for a volume that reports no identity.
pub open spec fn identity_fault(shown: Seq<char>) -> error::FaultView {
    error::fault(
        ErrorKind::Internal,
        shown
            + ": file identity (volume serial + file id) is unavailable; the workspace volume does not report stable file ids"@,
    )
}

/// The error for an entry on another volume than the root.
pub open spec fn volume_fault(quoted: Seq<char>, found: u64, expected: u64) -> error::FaultView {
    error::fault(
        ErrorKind::Permission,
        quoted + ": resolved entry is on volume 0x"@ + hex(found as nat, 1, false)
            + ", not the workspace volume 0x"@ + hex(expected as nat, 1, false),
    )
}

// -------------------------------------------------------------- the machine

/// What a walk waits for.
#[derive(Debug, Clone, Copy, PartialEq, Eq, Structural)]
pub enum Stage {
    /// The root is being opened for the first time.
    Root,
    /// A component is being opened.
    Open,
    /// The reparse data of the entry opened last is being read.
    Reparse,
    /// The root is being opened again.
    Reanchor,
    /// The identity of the entry opened last is being read.
    Entry,
    /// The identity of the current directory is being read.
    Directory,
    /// The walk is over.
    Finished,
}

/// A walk by its contents.
pub struct WalkView {
    /// The root, as units.
    pub root: Seq<u16>,
    /// The caller's path, as messages show it.
    pub shown: Seq<char>,
    pub quoted: Seq<char>,
    /// A directory is wanted.
    pub directory: bool,
    /// A missing component ends the walk without an error.
    pub tolerate_missing: bool,
    /// The names still to be opened.
    pub pending: Seq<Seq<u16>>,
    /// The names that lead from the root to the current directory.
    pub pos: Seq<Seq<u16>>,
    /// The name opened last.
    pub comp: Seq<u16>,
    /// Links followed.
    pub hops: nat,
    /// Names opened.
    pub index: nat,
    /// The volume of the root.
    pub volume: u64,
    pub stage: Stage,
}

/// What came of a [`Step`].
#[derive(Debug, Clone, PartialEq, Eq)]
pub enum Event {
    /// The root was opened; it is on this volume.
    RootOpened { volume: Option<u64> },
    /// The component was opened; these are its attributes.
    Opened { attributes: Option<u32> },
    /// The component was not opened.
    OpenFailed { status: u32, win32: u32 },
    /// The reparse data of the entry.
    Reparse { data: Vec<u8> },
    /// The reparse data could not be read.
    ReparseFailed { error: Error },
    /// The volume of the entry or directory asked for.
    Identity { volume: Option<u64> },
}

/// What is to be done next.
#[derive(Debug, Clone, PartialEq, Eq)]
pub enum Step {
    /// Open the root: it becomes the current directory.
    OpenRoot,
    /// Open `name` in the current directory, without following it. With
    /// `descend`, the entry opened last becomes the current directory first.
    Open { name: Vec<u16>, directory: bool, descend: bool },
    /// Read the reparse data of the entry opened last.
    ReadReparse,
    /// Read the identity of the entry opened last.
    IdentifyEntry,
    /// Read the identity of the current directory.
    IdentifyDirectory,
    /// Done: the entry opened last is the one named.
    Entry,
    /// Done: the current directory is the entry named.
    Directory,
    /// Done: these names are missing in the current directory.
    Missing(Vec<Vec<u16>>),
    /// Done: the walk is refused.
    Failed(Error),
}

/// A [`Step`] by its contents.
pub enum StepView {
    OpenRoot,
    Open { name: Seq<u16>, directory: bool, descend: bool },
    ReadReparse,
    IdentifyEntry,
    IdentifyDirectory,
    Entry,
    Directory,
    Missing(Seq<Seq<u16>>),
    Failed(error::FaultView),
}

impl View for Step {
    type V = StepView;

    open spec fn view(&self) -> StepView {
        match self {
            Step::OpenRoot => StepView::OpenRoot,
            Step::Open { name, directory, descend } => StepView::Open {
                name: name@,
                directory: *directory,
                descend: *descend,
            },
            Step::ReadReparse => StepView::ReadReparse,
            Step::IdentifyEntry => StepView::IdentifyEntry,
            Step::IdentifyDirectory => StepView::IdentifyDirectory,
            Step::Entry => StepView::Entry,
            Step::Directory => StepView::Directory,
            Step::Missing(names) => StepView::Missing(winpath::parts(names@)),
            Step::Failed(e) => StepView::Failed(e@),
        }
    }
}

/// The walk is over, with this last step.
pub open spec fn finish(w: WalkView, step: StepView) -> (WalkView, StepView) {
    (WalkView { stage: Stage::Finished, ..w }, step)
}

/// The walk takes the next name, or looks at the directory it has reached.
pub open spec fn resume(w: WalkView, descend: bool) -> (WalkView, StepView) {
    if w.pending.len() == 0 {
        (WalkView { stage: Stage::Directory, ..w }, StepView::IdentifyDirectory)
    } else {
        let v = WalkView {
            comp: w.pending[0],
            pending: w.pending.skip(1),
            stage: Stage::Open,
            ..w
        };
        if v.comp.len() == 0 {
            finish(
                v,
                StepView::Failed(
                    error::fault(
                        ErrorKind::Malformed,
                        w.quoted + ": empty path component "@ + diag_text(w.index, v.comp, w.pos),
                    ),
                ),
            )
        } else if v.comp.len() > MAX_NAME_UNITS {
            finish(
                v,
                StepView::Failed(
                    error::fault(
                        ErrorKind::Oversized,
                        w.quoted + ": path component "@ + text::debug_of(lossy(v.comp))
                            + " exceeds the NT name bound ("@ + diag_text(w.index, v.comp, w.pos)
                            + ")"@,
                    ),
                ),
            )
        } else {
            (
                v,
                StepView::Open {
                    name: v.comp,
                    directory: v.pending.len() > 0 || w.directory,
                    descend,
                },
            )
        }
    }
}

/// Where the entry opened last was found.
pub open spec fn entry_diag(w: WalkView) -> Seq<char> {
    diag_text((w.index - 1) as nat, w.comp, w.pos)
}

/// The error for a walk with too many names.
pub open spec fn bound_fault(w: WalkView) -> error::FaultView {
    error::fault(
        ErrorKind::Oversized,
        w.quoted + " exceeds the 4096-component walk bound "@ + entry_diag(w),
    )
}

/// The root was opened.
pub open spec fn after_root(w: WalkView, volume: Option<u64>) -> (WalkView, StepView) {
    if w.stage == Stage::Root {
        match volume {
            None => finish(w, StepView::Failed(identity_fault(w.shown))),
            Some(v) => resume(WalkView { volume: v, ..w }, false),
        }
    } else if w.pending.len() > MAX_COMPONENTS {
        finish(w, StepView::Failed(bound_fault(w)))
    } else {
        resume(w, false)
    }
}

/// A component was opened and has these attributes.
pub open spec fn after_open(w: WalkView, attributes: Option<u32>) -> (WalkView, StepView) {
    let v = WalkView { index: w.index + 1, ..w };
    match attributes {
        None => finish(
            v,
            StepView::Failed(
                error::fault(
                    ErrorKind::Internal,
                    w.quoted + ": attribute query failed at component "@ + text::decimal(w.index)
                        + " ("@ + text::debug_of(lossy(w.comp)) + ", resolved "@ + text::debug_of(
                        position_text(w.pos),
                    ) + ")"@,
                ),
            ),
        ),
        Some(a) => if a & FILE_ATTRIBUTE_REPARSE_POINT != 0 {
            let l = WalkView { hops: v.hops + 1, ..v };
            if l.hops > MAX_SYMLINK_HOPS {
                finish(
                    l,
                    StepView::Failed(
                        error::fault(
                            ErrorKind::Permission,
                            w.quoted
                                + ": reparse point resolution exceeded the 8-hop bound (possible loop) "@
                                + entry_diag(l),
                        ),
                    ),
                )
            } else {
                (WalkView { stage: Stage::Reparse, ..l }, StepView::ReadReparse)
            }
        } else if w.pending.len() == 0 {
            (WalkView { stage: Stage::Entry, ..v }, StepView::IdentifyEntry)
        } else {
            resume(WalkView { pos: v.pos.push(v.comp), ..v }, true)
        },
    }
}

/// A component was not opened.
pub open spec fn after_failure(w: WalkView, status: u32, win32: u32) -> (WalkView, StepView) {
    if w.tolerate_missing && missing_status(status) {
        finish(w, StepView::Missing(seq![w.comp] + w.pending))
    } else {
        finish(w, StepView::Failed(open_fault(w, status, win32)))
    }
}

/// The error with the place of the walk behind its text.
pub open spec fn placed(w: WalkView, f: error::FaultView) -> error::FaultView {
    error::fault(f.kind, f.message + " ("@ + entry_diag(w) + ")"@)
}

/// The link `link` is followed.
pub open spec fn after_link(w: WalkView, link: winpath::ReparseView) -> (WalkView, StepView) {
    let relative = link.tag == IO_REPARSE_TAG_SYMLINK && link.flags & SYMLINK_FLAG_RELATIVE != 0;
    match winpath::rebase_of(w.root, w.pos, link.substitute, relative) {
        Ok(winpath::RebaseView::Stay(names)) => {
            let v = WalkView { pending: names + w.pending, ..w };
            if v.pending.len() > MAX_COMPONENTS {
                finish(v, StepView::Failed(bound_fault(v)))
            } else {
                resume(v, false)
            }
        },
        Ok(winpath::RebaseView::Relocate(names)) => (
            WalkView {
                pending: names + w.pending,
                pos: Seq::empty(),
                stage: Stage::Reanchor,
                ..w
            },
            StepView::OpenRoot,
        ),
        Err(hazard) => {
            let f = winpath::hazard_fault(hazard, w.quoted);
            finish(
                w,
                StepView::Failed(
                    error::fault(
                        f.kind,
                        f.message + " ("@ + entry_diag(w) + "; reparse target "@ + text::debug_of(
                            lossy(link.substitute),
                        ) + ", print name "@ + text::debug_of(lossy(link.print)) + ")"@,
                    ),
                ),
            )
        },
    }
}

/// The reparse data of a component was read.
pub open spec fn after_reparse(w: WalkView, data: Seq<u8>) -> (WalkView, StepView) {
    match winpath::reparse_of(data) {
        Err(e) => finish(
            w,
            StepView::Failed(
                placed(
                    w,
                    error::fault(
                        ErrorKind::Permission,
                        "reparse point data is not a permitted link: "@ + e.name(),
                    ),
                ),
            ),
        ),
        Ok(link) => after_link(w, link),
    }
}

/// The volume of what was reached is known.
pub open spec fn after_identity(w: WalkView, volume: Option<u64>) -> (WalkView, StepView) {
    match volume {
        None => finish(w, StepView::Failed(identity_fault(w.shown))),
        Some(v) => if v != w.volume {
            finish(w, StepView::Failed(volume_fault(w.quoted, v, w.volume)))
        } else if w.stage == Stage::Entry {
            finish(w, StepView::Entry)
        } else {
            finish(w, StepView::Directory)
        },
    }
}

/// The event answers what the walk waits for.
pub open spec fn awaited(stage: Stage, event: Event) -> bool {
    match event {
        Event::RootOpened { .. } => stage == Stage::Root || stage == Stage::Reanchor,
        Event::Opened { .. } => stage == Stage::Open,
        Event::OpenFailed { .. } => stage == Stage::Open,
        Event::Reparse { .. } => stage == Stage::Reparse,
        Event::ReparseFailed { .. } => stage == Stage::Reparse,
        Event::Identity { .. } => stage == Stage::Entry || stage == Stage::Directory,
    }
}

/// The walk after an event it waited for, and what is to be done next.
pub open spec fn next(w: WalkView, event: Event) -> (WalkView, StepView) {
    match event {
        Event::RootOpened { volume } => after_root(w, volume),
        Event::Opened { attributes } => after_open(w, attributes),
        Event::OpenFailed { status, win32 } => after_failure(w, status, win32),
        Event::Reparse { data } => after_reparse(w, data@),
        Event::ReparseFailed { error } => finish(w, StepView::Failed(placed(w, error@))),
        Event::Identity { volume } => after_identity(w, volume),
    }
}

/// The walk before its first event.
pub open spec fn started(
    root: Seq<u16>,
    rel: PathText,
    names: Seq<Seq<u16>>,
    directory: bool,
    tolerate_missing: bool,
) -> WalkView {
    WalkView {
        root,
        shown: rel.shown@,
        quoted: rel.quoted@,
        directory,
        tolerate_missing,
        pending: names,
        pos: Seq::empty(),
        comp: Seq::empty(),
        hops: 0,
        index: 0,
        volume: 0,
        stage: Stage::Root,
    }
}

/// What holds of every walk: it holds plain names only, and it is within its
/// bounds.
pub open spec fn sound(w: WalkView) -> bool {
    &&& winpath::all_plain(w.pending)
    &&& winpath::all_plain(w.pos)
    &&& w.stage == Stage::Open ==> winpath::plain(w.comp)
    &&& w.hops <= MAX_SYMLINK_HOPS + 1
    &&& w.stage != Stage::Finished ==> w.hops <= MAX_SYMLINK_HOPS
    &&& w.stage == Stage::Root || w.stage == Stage::Open || w.stage == Stage::Reparse
        ==> w.pending.len() <= MAX_COMPONENTS
    &&& w.stage == Stage::Root ==> w.index == 0
    &&& w.stage == Stage::Open ==> w.index + 1 + w.pending.len() <= 8192 * (w.hops + 1)
    &&& w.stage == Stage::Reparse || w.stage == Stage::Reanchor ==> 1 <= w.index <= 8192 * w.hops
}

/// A step that opens something opens a plain name.
pub open spec fn plain_step(step: StepView) -> bool {
    step matches StepView::Open { name, .. } ==> winpath::plain(name)
}

proof fn lemma_resume_sound(w: WalkView, descend: bool)
    requires
        winpath::all_plain(w.pending),
        winpath::all_plain(w.pos),
        w.hops <= MAX_SYMLINK_HOPS,
        w.pending.len() <= MAX_COMPONENTS,
        w.index + w.pending.len() <= 8192 * (w.hops + 1),
    ensures
        sound(resume(w, descend).0),
        plain_step(resume(w, descend).1),
{
    if w.pending.len() > 0 {
        let rest = w.pending.skip(1);
        assert(winpath::plain(w.pending[0]));
        assert forall|i: int| 0 <= i < rest.len() implies winpath::plain(#[trigger] rest[i]) by {
            assert(winpath::plain(w.pending[i + 1]));
        }
    }
}

/// Whatever event a walk gets, it goes on holding plain names only, opens plain
/// names only, and stays within its bounds.
pub proof fn law_a_walk_stays_below(w: WalkView, event: Event)
    requires
        sound(w),
        awaited(w.stage, event),
    ensures
        sound(next(w, event).0),
        plain_step(next(w, event).1),
{
    match event {
        Event::RootOpened { volume } => {
            if w.pending.len() <= MAX_COMPONENTS {
                lemma_resume_sound(w, false);
                if let Some(v) = volume {
                    lemma_resume_sound(WalkView { volume: v, ..w }, false);
                }
            }
        },
        Event::Opened { attributes } => {
            let v = WalkView { index: w.index + 1, pos: w.pos.push(w.comp), ..w };
            if w.pending.len() > 0 {
                assert(winpath::all_plain(v.pos));
                lemma_resume_sound(v, true);
            }
        },
        Event::Reparse { data } => {
            if let Ok(link) = winpath::reparse_of(data@) {
                let relative = link.tag == IO_REPARSE_TAG_SYMLINK && link.flags
                    & SYMLINK_FLAG_RELATIVE != 0;
                winpath::law_links_stay_below(w.root, w.pos, link.substitute, relative);
                match winpath::rebase_of(w.root, w.pos, link.substitute, relative) {
                    Ok(winpath::RebaseView::Stay(names)) => {
                        let v = WalkView { pending: names + w.pending, ..w };
                        assert(winpath::all_plain(v.pending));
                        if v.pending.len() <= MAX_COMPONENTS {
                            lemma_resume_sound(v, false);
                        }
                    },
                    Ok(winpath::RebaseView::Relocate(names)) => {
                        assert(winpath::all_plain(names + w.pending));
                    },
                    Err(_) => {},
                }
            }
        },
        _ => {},
    }
}

/// How many events a walk can still get at most.
pub open spec fn fuel(w: WalkView) -> int {
    let base = 5000 * (9 - w.hops);
    match w.stage {
        Stage::Root => base + 4990,
        Stage::Open => base + 10 + w.pending.len(),
        Stage::Reparse => base + 4990,
        Stage::Reanchor => base + 4980,
        Stage::Entry => base + 5,
        Stage::Directory => base + 5,
        Stage::Finished => 0,
    }
}

/// Every event brings a walk nearer to its end.
pub proof fn law_every_event_counts(w: WalkView, event: Event)
    requires
        sound(w),
        awaited(w.stage, event),
    ensures
        0 <= fuel(next(w, event).0) < fuel(w),
{
    law_a_walk_stays_below(w, event);
}

/// The walk after all the events.
pub open spec fn run(w: WalkView, events: Seq<Event>) -> WalkView
    decreases events.len(),
{
    if events.len() == 0 {
        w
    } else {
        next(run(w, events.drop_last()), events.last()).0
    }
}

/// Every event was one that the walk waited for.
pub open spec fn answers(w: WalkView, events: Seq<Event>) -> bool
    decreases events.len(),
{
    events.len() == 0 || (answers(w, events.drop_last()) && awaited(
        run(w, events.drop_last()).stage,
        events.last(),
    ))
}

/// A walk ends after a bounded number of events, whatever links it meets: no
/// loop of links can keep it going.
pub proof fn law_a_walk_ends(w: WalkView, events: Seq<Event>)
    requires
        sound(w),
        answers(w, events),
    ensures
        sound(run(w, events)),
        events.len() + fuel(run(w, events)) <= fuel(w) <= 49990,
    decreases events.len(),
{
    if events.len() > 0 {
        law_a_walk_ends(w, events.drop_last());
        law_a_walk_stays_below(run(w, events.drop_last()), events.last());
        law_every_event_counts(run(w, events.drop_last()), events.last());
    }
}

/// A walk from the root to an entry below it.
#[derive(Debug, Clone, PartialEq, Eq)]
pub struct WinWalk {
    root: Vec<u16>,
    rel: PathText,
    directory: bool,
    tolerate_missing: bool,
    pending: Vec<Vec<u16>>,
    pos: Vec<Vec<u16>>,
    comp: Vec<u16>,
    hops: usize,
    index: usize,
    volume: u64,
    stage: Stage,
}

impl View for WinWalk {
    type V = WalkView;

    closed spec fn view(&self) -> WalkView {
        WalkView {
            root: self.root@,
            shown: self.rel.shown@,
            quoted: self.rel.quoted@,
            directory: self.directory,
            tolerate_missing: self.tolerate_missing,
            pending: winpath::parts(self.pending@),
            pos: winpath::parts(self.pos@),
            comp: self.comp@,
            hops: self.hops as nat,
            index: self.index as nat,
            volume: self.volume,
            stage: self.stage,
        }
    }
}

impl WinWalk {
    /// Starts a walk to `rel` under `root`; its first step is
    /// [`Step::OpenRoot`]. A path with a hazard is refused before anything is
    /// opened.
    pub fn begin(
        root: &[u16],
        rel_units: &[u16],
        rel: PathText,
        directory: bool,
        tolerate_missing: bool,
    ) -> (r: Result<WinWalk, Error>)
        ensures
            match winpath::components_under(root@, rel_units@) {
                Ok(names) => r matches Ok(w) && w@ == started(
                    root@,
                    rel,
                    names,
                    directory,
                    tolerate_missing,
                ) && sound(w@),
                Err(hazard) => r matches Err(e) && e@ == winpath::hazard_fault(
                    hazard,
                    rel.quoted@,
                ),
            },
    {
        proof {
            winpath::law_accepted_paths_stay_below(root@, rel_units@);
        }
        match lexical_components(root, rel_units) {
            Err(hazard) => Err(hazard.into_error(&rel)),
            Ok(names) => {
                let w: WinWalk = WinWalk {
                    root: copy_units(root),
                    rel,
                    directory,
                    tolerate_missing,
                    pending: names,
                    pos: Vec::new(),
                    comp: Vec::new(),
                    hops: 0,
                    index: 0,
                    volume: 0,
                    stage: Stage::Root,
                };
                proof {
                    assert(w@.pos =~= Seq::<Seq<u16>>::empty());
                    assert(w@.comp =~= Seq::<u16>::empty());
                }
                Ok(w)
            },
        }
    }

    /// What the walk waits for.
    pub fn stage(&self) -> (r: Stage)
        ensures
            r == self@.stage,
    {
        self.stage
    }

    fn fail(&mut self, e: Error) -> (r: Step)
        ensures
            (final(self)@, r@) == finish(old(self)@, StepView::Failed(e@)),
    {
        self.stage = Stage::Finished;
        Step::Failed(e)
    }

    fn resume(&mut self, descend: bool) -> (r: Step)
        ensures
            (final(self)@, r@) == resume(old(self)@, descend),
    {
        if self.pending.len() == 0 {
            self.stage = Stage::Directory;
            return Step::IdentifyDirectory;
        }
        let ghost before = self@;
        self.comp = self.pending.remove(0);
        self.stage = Stage::Open;
        proof {
            assert(self@.pending =~= before.pending.skip(1));
            assert(self@.comp == before.pending[0]);
        }
        if self.comp.len() == 0 {
            let m: String = text::cat3(
                self.rel.quoted.as_str(),
                ": empty path component ",
                walk_diag(self.index, self.comp.as_slice(), &self.pos).as_str(),
            );
            return self.fail(Error::malformed(m));
        }
        if self.comp.len() > MAX_NAME_UNITS {
            let mut m: String = text::cat4(
                self.rel.quoted.as_str(),
                ": path component ",
                text::debug_str(lossy_text(self.comp.as_slice()).as_str()).as_str(),
                " exceeds the NT name bound (",
            );
            m.append(walk_diag(self.index, self.comp.as_slice(), &self.pos).as_str());
            m.append(")");
            return self.fail(Error::oversized(m));
        }
        Step::Open {
            name: copy_units(self.comp.as_slice()),
            directory: self.pending.len() > 0 || self.directory,
            descend,
        }
    }

    fn entry_diag(&self) -> (r: String)
        requires
            self@.index >= 1,
        ensures
            r@ == entry_diag(self@),
    {
        walk_diag(self.index - 1, self.comp.as_slice(), &self.pos)
    }

    fn bound_error(&self) -> (r: Error)
        requires
            self@.index >= 1,
        ensures
            r@ == bound_fault(self@),
    {
        Error::oversized(
            text::cat3(
                self.rel.quoted.as_str(),
                " exceeds the 4096-component walk bound ",
                self.entry_diag().as_str(),
            ),
        )
    }

    fn identity_error(&self) -> (r: Error)
        ensures
            r@ == identity_fault(self@.shown),
    {
        Error::internal(
            text::cat2(
                self.rel.shown.as_str(),
                ": file identity (volume serial + file id) is unavailable; the workspace volume does not report stable file ids",
            ),
        )
    }

    fn root_opened(&mut self, volume: Option<u64>) -> (r: Step)
        requires
            sound(old(self)@),
            old(self)@.stage == Stage::Root || old(self)@.stage == Stage::Reanchor,
        ensures
            (final(self)@, r@) == after_root(old(self)@, volume),
    {
        if self.stage == Stage::Root {
            match volume {
                None => {
                    let e: Error = self.identity_error();
                    self.fail(e)
                },
                Some(v) => {
                    self.volume = v;
                    self.resume(false)
                },
            }
        } else if self.pending.len() > MAX_COMPONENTS {
            let e: Error = self.bound_error();
            self.fail(e)
        } else {
            self.resume(false)
        }
    }

    fn opened(&mut self, attributes: Option<u32>) -> (r: Step)
        requires
            sound(old(self)@),
            old(self)@.stage == Stage::Open,
        ensures
            (final(self)@, r@) == after_open(old(self)@, attributes),
    {
        let ghost before = self@;
        match attributes {
            None => {
                let mut m: String = text::cat5(
                    self.rel.quoted.as_str(),
                    ": attribute query failed at component ",
                    text::decimal_text(self.index as u64).as_str(),
                    " (",
                    text::debug_str(lossy_text(self.comp.as_slice()).as_str()).as_str(),
                );
                m.append(", resolved ");
                m.append(text::debug_str(render_pos(&self.pos).as_str()).as_str());
                m.append(")");
                self.index = self.index + 1;
                self.fail(Error::internal(m))
            },
            Some(a) => {
                self.index = self.index + 1;
                if a & FILE_ATTRIBUTE_REPARSE_POINT != 0 {
                    self.hops = self.hops + 1;
                    if self.hops > MAX_SYMLINK_HOPS {
                        let m: String = text::cat3(
                            self.rel.quoted.as_str(),
                            ": reparse point resolution exceeded the 8-hop bound (possible loop) ",
                            self.entry_diag().as_str(),
                        );
                        return self.fail(Error::permission(m));
                    }
                    self.stage = Stage::Reparse;
                    return Step::ReadReparse;
                }
                if self.pending.len() == 0 {
                    self.stage = Stage::Entry;
                    return Step::IdentifyEntry;
                }
                self.pos.push(copy_units(self.comp.as_slice()));
                proof {
                    assert(self@.pos =~= before.pos.push(before.comp));
                }
                self.resume(true)
            },
        }
    }

    fn open_error(&self, status: u32, win32: u32) -> (r: Error)
        ensures
            r@ == open_fault(self@, status, win32),
    {
        let mut diag: String = text::cat5(
            "component ",
            text::decimal_text(self.index as u64).as_str(),
            " ",
            text::debug_str(lossy_text(self.comp.as_slice()).as_str()).as_str(),
            ", resolved ",
        );
        diag.append(text::debug_str(render_pos(&self.pos).as_str()).as_str());
        diag.append(", NTSTATUS 0x");
        push_hex(&mut diag, status as u64, 8, true);
        let parent: String = text::cat2("parent resolution failed: ", self.rel.quoted.as_str());
        let last: bool = self.pending.len() == 0;
        let absent: bool = status == STATUS_OBJECT_NAME_NOT_FOUND || status
            == STATUS_OBJECT_PATH_NOT_FOUND;
        if absent && last {
            Error::not_found(text::cat4(self.rel.shown.as_str(), " (", diag.as_str(), ")"))
        } else if status == STATUS_NOT_A_DIRECTORY {
            Error::permission(
                text::cat4(
                    parent.as_str(),
                    ": component is not a directory (",
                    diag.as_str(),
                    ")",
                ),
            )
        } else if last {
            let mut m: String = text::cat4(
                self.rel.shown.as_str(),
                " (",
                diag.as_str(),
                "; win32 ",
            );
            m.append(text::decimal_text(win32 as u64).as_str());
            m.append(")");
            Error::internal(m)
        } else {
            Error::permission(text::cat4(parent.as_str(), " (", diag.as_str(), ")"))
        }
    }

    fn open_failed(&mut self, status: u32, win32: u32) -> (r: Step)
        ensures
            (final(self)@, r@) == after_failure(old(self)@, status, win32),
    {
        let absent: bool = status == STATUS_OBJECT_NAME_NOT_FOUND || status
            == STATUS_OBJECT_PATH_NOT_FOUND;
        if self.tolerate_missing && absent {
            let mut names: Vec<Vec<u16>> = copy_names(&self.pending);
            let ghost rest = winpath::parts(names@);
            names.insert(0, copy_units(self.comp.as_slice()));
            self.stage = Stage::Finished;
            proof {
                assert(winpath::parts(names@) =~= seq![self.comp@] + rest);
            }
            Step::Missing(names)
        } else {
            let e: Error = self.open_error(status, win32);
            self.fail(e)
        }
    }

    /// The error with the place of the walk behind its text.
    fn placed(&self, e: Error) -> (r: Error)
        requires
            self@.index >= 1,
        ensures
            r@ == placed(self@, e@),
    {
        let m: String = text::cat4(
            e.message.as_str(),
            " (",
            self.entry_diag().as_str(),
            ")",
        );
        Error { kind: e.kind, message: m }
    }

    /// Puts `names` in front of what is still to be opened.
    fn put_front(&mut self, names: Vec<Vec<u16>>)
        ensures
            final(self)@ == (WalkView {
                pending: winpath::parts(names@) + old(self)@.pending,
                ..old(self)@
            }),
    {
        let ghost front = winpath::parts(names@);
        let ghost before = self@;
        let mut all: Vec<Vec<u16>> = names;
        all.append(&mut self.pending);
        self.pending = all;
        proof {
            assert(self@.pending =~= front + before.pending);
        }
    }

    fn follow_link(&mut self, link: ParsedReparse) -> (r: Step)
        requires
            old(self)@.index >= 1,
        ensures
            (final(self)@, r@) == after_link(old(self)@, link@),
    {
        let relative: bool = link.tag == IO_REPARSE_TAG_SYMLINK && link.flags
            & SYMLINK_FLAG_RELATIVE != 0;
        match rebase_target(
            self.root.as_slice(),
            &self.pos,
            link.substitute.as_slice(),
            relative,
        ) {
            Ok(Rebase::Stay(names)) => {
                self.put_front(names);
                if self.pending.len() > MAX_COMPONENTS {
                    let e: Error = self.bound_error();
                    return self.fail(e);
                }
                self.resume(false)
            },
            Ok(Rebase::Relocate(names)) => {
                self.put_front(names);
                self.pos = Vec::new();
                self.stage = Stage::Reanchor;
                proof {
                    assert(self@.pos =~= Seq::<Seq<u16>>::empty());
                }
                Step::OpenRoot
            },
            Err(hazard) => {
                let f: Error = hazard.into_error(&self.rel);
                let mut m: String = text::cat5(
                    f.message.as_str(),
                    " (",
                    self.entry_diag().as_str(),
                    "; reparse target ",
                    text::debug_str(lossy_text(link.substitute.as_slice()).as_str()).as_str(),
                );
                m.append(", print name ");
                m.append(
                    text::debug_str(lossy_text(link.print.as_slice()).as_str()).as_str(),
                );
                m.append(")");
                self.fail(Error { kind: f.kind, message: m })
            },
        }
    }

    fn identified(&mut self, volume: Option<u64>) -> (r: Step)
        ensures
            (final(self)@, r@) == after_identity(old(self)@, volume),
    {
        match volume {
            None => {
                let e: Error = self.identity_error();
                self.fail(e)
            },
            Some(v) => if v != self.volume {
                let mut m: String = text::cat2(
                    self.rel.quoted.as_str(),
                    ": resolved entry is on volume 0x",
                );
                push_hex(&mut m, v, 1, false);
                m.append(", not the workspace volume 0x");
                push_hex(&mut m, self.volume, 1, false);
                self.fail(Error::permission(m))
            } else if self.stage == Stage::Entry {
                self.stage = Stage::Finished;
                Step::Entry
            } else {
                self.stage = Stage::Finished;
                Step::Directory
            },
        }
    }

    /// Takes the event that the walk waited for, and says what is to be done
    /// next.
    pub fn advance(&mut self, event: Event) -> (r: Step)
        requires
            sound(old(self)@),
            awaited(old(self)@.stage, event),
        ensures
            (final(self)@, r@) == next(old(self)@, event),
            sound(final(self)@),
            plain_step(r@),
            fuel(final(self)@) < fuel(old(self)@),
    {
        proof {
            law_a_walk_stays_below(self@, event);
            law_every_event_counts(self@, event);
        }
        match event {
            Event::RootOpened { volume } => self.root_opened(volume),
            Event::Opened { attributes } => self.opened(attributes),
            Event::OpenFailed { status, win32 } => self.open_failed(status, win32),
            Event::Reparse { data } => match parse_reparse_data(data.as_slice()) {
                Err(e) => {
                    let f: Error = self.placed(
                        Error::permission(
                            text::cat2(
                                "reparse point data is not a permitted link: ",
                                e.label(),
                            ),
                        ),
                    );
                    self.fail(f)
                },
                Ok(link) => self.follow_link(link),
            },
            Event::ReparseFailed { error } => {
                let f: Error = self.placed(error);
                self.fail(f)
            },
            Event::Identity { volume } => self.identified(volume),
        }
    }
}

/// Holds a path that the system reported for an entry against the root once
/// more.
pub fn confine(root: &[u16], path: &[u16], rel: &PathText, shown: &str) -> (r: Result<(), Error>)
    ensures
        match winpath::below_root(root@, path@) {
            Some(_) => r is Ok,
            None => r matches Err(e) && e@ == error::fault(
                ErrorKind::Permission,
                "path escapes workspace: "@ + rel.quoted@ + " (resolved "@ + shown@ + ")"@,
            ),
        },
{
    match strip_root_prefix(root, path) {
        Ok(_) => Ok(()),
        Err(_) => Err(
            Error::permission(
                text::cat5(
                    "path escapes workspace: ",
                    rel.quoted.as_str(),
                    " (resolved ",
                    shown,
                    ")",
                ),
            ),
        ),
    }
}

/// An undisturbed walk opens its names one after the other, from the root on, and
/// asks at the end on which volume it is: on another than the root's it is refused.
pub proof fn law_a_walk_opens_name_by_name(w: WalkView, volume: u64, attributes: u32)
    requires
        attributes & 0x400 == 0,
        w.pending.len() > 0 ==> 1 <= w.pending[0].len() <= 32767,
    ensures
        w.stage == Stage::Root && w.pending.len() == 0 ==> {
            let (v, step) = next(w, Event::RootOpened { volume: Some(volume) });
            step == StepView::IdentifyDirectory && v.volume == volume && v.stage == Stage::Directory
        },
        w.stage == Stage::Root && w.pending.len() > 0 ==> {
            let (v, step) = next(w, Event::RootOpened { volume: Some(volume) });
            &&& step == (StepView::Open {
                name: w.pending[0],
                directory: w.pending.len() > 1 || w.directory,
                descend: false,
            })
            &&& v.volume == volume
            &&& v.comp == w.pending[0]
            &&& v.pending == w.pending.skip(1)
            &&& v.pos == w.pos
        },
        w.stage == Stage::Open && w.pending.len() == 0 ==> {
            let (v, step) = next(w, Event::Opened { attributes: Some(attributes) });
            step == StepView::IdentifyEntry && v.stage == Stage::Entry && v.volume == w.volume
        },
        w.stage == Stage::Open && w.pending.len() > 0 ==> {
            let (v, step) = next(w, Event::Opened { attributes: Some(attributes) });
            &&& step == (StepView::Open {
                name: w.pending[0],
                directory: w.pending.len() > 1 || w.directory,
                descend: true,
            })
            &&& v.pos == w.pos.push(w.comp)
            &&& v.comp == w.pending[0]
            &&& v.pending == w.pending.skip(1)
            &&& v.index == w.index + 1
        },
        w.stage == Stage::Entry ==> {
            let step = next(w, Event::Identity { volume: Some(volume) }).1;
            &&& volume == w.volume ==> step == StepView::Entry
            &&& volume != w.volume ==> (step matches StepView::Failed(f) && f.kind
                == ErrorKind::Permission)
        },
        w.stage == Stage::Directory ==> {
            let step = next(w, Event::Identity { volume: Some(volume) }).1;
            &&& volume == w.volume ==> step == StepView::Directory
            &&& volume != w.volume ==> (step matches StepView::Failed(f) && f.kind
                == ErrorKind::Permission)
        },
        (next(w, Event::Identity { volume: None }).1 matches StepView::Failed(f) && f.kind
            == ErrorKind::Internal),
{
}

/// A link is read and counted, up to eight of them; what it leads to is walked
/// before the names that were left. A relative symbolic link counts from where it
/// stands, and any other link from the root.
pub proof fn law_a_link_is_walked_first(
    w: WalkView,
    attributes: u32,
    data: Vec<u8>,
    link: winpath::ReparseView,
)
    requires
        attributes & 0x400 != 0,
        winpath::reparse_of(data@) == Ok::<winpath::ReparseView, winpath::ReparseError>(link),
    ensures
        ({
            let (v, step) = next(w, Event::Opened { attributes: Some(attributes) });
            &&& w.hops < 8 ==> step == StepView::ReadReparse && v.hops == w.hops + 1 && v.stage
                == Stage::Reparse && v.pending == w.pending && v.pos == w.pos
            &&& w.hops >= 8 ==> v.stage == Stage::Finished && (step matches StepView::Failed(f)
                && f.kind == ErrorKind::Permission)
        }),
        ({
            let (v, step) = next(w, Event::Reparse { data });
            let relative = link.tag == 0xA000_000C && link.flags & 1 != 0;
            match winpath::rebase_of(w.root, w.pos, link.substitute, relative) {
                Ok(winpath::RebaseView::Stay(list)) => {
                    let all = list + w.pending;
                    &&& 0 < all.len() <= 4096 && 1 <= all[0].len() <= 32767 ==> step == (
                    StepView::Open {
                        name: all[0],
                        directory: all.len() > 1 || w.directory,
                        descend: false,
                    }) && v.pending == all.skip(1) && v.pos == w.pos
                    &&& all.len() > 4096 ==> (step matches StepView::Failed(f) && f.kind
                        == ErrorKind::Oversized)
                },
                Ok(winpath::RebaseView::Relocate(list)) => step == StepView::OpenRoot && v.pending
                    == list + w.pending && v.pos == Seq::<Seq<u16>>::empty() && v.stage
                    == Stage::Reanchor,
                Err(_) => step is Failed && v.stage == Stage::Finished,
            }
        }),
{
}

/// What could not be opened ends the walk: with the names that are missing where
/// that is allowed, as not found where the last name is missing, and as a failed
/// resolution where a name before it is.
pub proof fn law_what_cannot_be_opened_ends_the_walk(w: WalkView, status: u32, win32: u32)
    ensures
        ({
            let (v, step) = next(w, Event::OpenFailed { status, win32 });
            let missing = status == 0xC000_0034 || status == 0xC000_003A;
            let last = w.pending.len() == 0;
            &&& v.stage == Stage::Finished
            &&& missing && w.tolerate_missing ==> step == StepView::Missing(
                seq![w.comp] + w.pending,
            )
            &&& missing && !w.tolerate_missing && last ==> (step matches StepView::Failed(f)
                && f.kind == ErrorKind::NotFound)
            &&& missing && !w.tolerate_missing && !last ==> (step matches StepView::Failed(f)
                && f.kind == ErrorKind::Permission)
            &&& status == 0xC000_0103 ==> (step matches StepView::Failed(f) && f.kind
                == ErrorKind::Permission)
            &&& !missing && status != 0xC000_0103 && last ==> (step matches StepView::Failed(f)
                && f.kind == ErrorKind::Internal)
            &&& !missing && !last ==> (step matches StepView::Failed(f) && f.kind
                == ErrorKind::Permission)
        }),
{
}

/// A root is walked in where it is a directory and no reparse point.
pub proof fn law_which_roots_are_walked(root: Seq<char>, attributes: u32)
    ensures
        root_fault(root, Some(attributes)) is None <==> attributes & 0x10 != 0 && attributes & 0x400
            == 0,
        attributes & 0x400 != 0 ==> (root_fault(root, Some(attributes)) matches Some(f) && f.kind
            == ErrorKind::Permission),
        root_fault(root, None) is Some,
{
}

/// A failed call is told by its code.
pub proof fn law_codes_tell_what_failed(what: Seq<char>, code: u32)
    ensures
        code == 2 || code == 3 ==> win32_fault(what, code) == error::fault(
            ErrorKind::NotFound,
            what,
        ),
        code == 5 ==> win32_fault(what, code).kind == ErrorKind::Permission,
        code != 2 && code != 3 && code != 5 ==> win32_fault(what, code).kind == ErrorKind::Internal,
{
}

/// A buffer that was too small is doubled, up to its bound; any other failure is
/// one.
pub proof fn law_small_buffers_are_doubled(len: nat, code: u32)
    ensures
        (code == 122 || code == 234) && len < 131072 ==> reparse_retry_of(len, code) == Ok::<
            nat,
            error::FaultView,
        >(2 * len),
        (code == 122 || code == 234) && len >= 131072 ==> (reparse_retry_of(len, code) matches Err(f)
            && f.kind == ErrorKind::Oversized),
        code != 122 && code != 234 ==> (reparse_retry_of(len, code) matches Err(f) && f.kind
            == ErrorKind::Internal),
{
}

/// Text in UTF-16 is read unit by unit; two halves of a pair are one character, and
/// a half alone is replaced.
pub proof fn law_units_are_read_as_text(u: u16, h: u16, l: u16, rest: Seq<u16>)
    requires
        u < 0xd800 || u > 0xdfff,
        0xd800 <= h <= 0xdbff,
        0xdc00 <= l <= 0xdfff,
    ensures
        lossy(Seq::empty()) == Seq::<char>::empty(),
        lossy(seq![u] + rest) == seq![u as char] + lossy(rest),
        lossy(seq![h, l] + rest) == seq![
            (0x10000 + (h - 0xd800) * 0x400 + (l - 0xdc00)) as char,
        ] + lossy(rest),
        lossy(seq![l] + rest) == seq!['\u{fffd}'] + lossy(rest),
{
    assert((seq![u] + rest).skip(1) =~= rest);
    assert((seq![h, l] + rest).skip(2) =~= rest);
    assert((seq![l] + rest).skip(1) =~= rest);
}

/// A number in hexadecimal: digit by digit, and padded with zeros to its width.
pub proof fn law_numbers_in_hexadecimal(n: nat, d: nat, width: nat)
    requires
        d < 16,
    ensures
        hex(d, 1, true) == seq!["0123456789ABCDEF"@[d as int]],
        hex(d, 1, false) == seq!["0123456789abcdef"@[d as int]],
        n > 0 || width > 0 ==> hex(16 * n + d, width + 1, true) == hex(n, width, true).push(
            "0123456789ABCDEF"@[d as int],
        ),
        n > 0 || width > 0 ==> hex(16 * n + d, width + 1, false) == hex(n, width, false).push(
            "0123456789abcdef"@[d as int],
        ),
{
    reveal_strlit("0123456789ABCDEF");
    reveal_strlit("0123456789abcdef");
    assert((16 * n + d) / 16 == n && (16 * n + d) % 16 == d) by (nonlinear_arith)
        requires
            d < 16,
    ;
}

} // verus!

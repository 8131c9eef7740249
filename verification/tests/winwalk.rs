//! Windows walks over a tree kept in memory.
use std::collections::BTreeMap;

use faktor::error::{Error, ErrorKind, PathText};
use faktor::winpath::{
    IO_REPARSE_TAG_MOUNT_POINT, IO_REPARSE_TAG_SYMLINK, SYMLINK_FLAG_RELATIVE,
};
use faktor::winwalk::{
    check_root, confine, map_win32, reparse_retry, Event, Step, WinWalk, ERROR_ACCESS_DENIED,
    ERROR_FILE_NOT_FOUND, ERROR_MORE_DATA, FILE_ATTRIBUTE_DIRECTORY, FILE_ATTRIBUTE_REPARSE_POINT,
    MAX_REPARSE_BUF, STATUS_NOT_A_DIRECTORY, STATUS_OBJECT_NAME_NOT_FOUND,
};

const ROOT: &str = r"C:\ws";

enum Node {
    Dir,
    File,
    Link(Vec<u8>),
}

/// Entries by their names below the root, joined with `\`.
#[derive(Default)]
struct Tree {
    nodes: BTreeMap<String, Node>,
    volume: Option<u64>,
}

fn u(s: &str) -> Vec<u16> {
    s.encode_utf16().collect()
}

fn utf16_bytes(s: &str) -> Vec<u8> {
    s.encode_utf16().flat_map(|c| c.to_le_bytes()).collect()
}

fn reparse(tag: u32, flags: Option<u32>, target: &str) -> Vec<u8> {
    let name = utf16_bytes(target);
    let mut body = Vec::new();
    body.extend_from_slice(&0u16.to_le_bytes());
    body.extend_from_slice(&(name.len() as u16).to_le_bytes());
    body.extend_from_slice(&(name.len() as u16).to_le_bytes());
    body.extend_from_slice(&(name.len() as u16).to_le_bytes());
    if let Some(f) = flags {
        body.extend_from_slice(&f.to_le_bytes());
    }
    body.extend_from_slice(&name);
    body.extend_from_slice(&name);
    let mut out = Vec::new();
    out.extend_from_slice(&tag.to_le_bytes());
    out.extend_from_slice(&(body.len() as u16).to_le_bytes());
    out.extend_from_slice(&0u16.to_le_bytes());
    out.extend_from_slice(&body);
    out
}

impl Tree {
    fn new() -> Tree {
        Tree { volume: Some(7), ..Default::default() }
    }

    fn dir(&mut self, path: &str) {
        self.nodes.insert(path.to_string(), Node::Dir);
    }

    fn file(&mut self, path: &str) {
        self.nodes.insert(path.to_string(), Node::File);
    }

    fn junction(&mut self, path: &str, target: &str) {
        let data = reparse(IO_REPARSE_TAG_MOUNT_POINT, None, &format!(r"\??\{target}"));
        self.nodes.insert(path.to_string(), Node::Link(data));
    }

    fn symlink(&mut self, path: &str, target: &str) {
        let flags = if target.contains(':') { 0 } else { SYMLINK_FLAG_RELATIVE };
        let target =
            if flags == 0 { format!(r"\??\{target}") } else { target.to_string() };
        let data = reparse(IO_REPARSE_TAG_SYMLINK, Some(flags), &target);
        self.nodes.insert(path.to_string(), Node::Link(data));
    }

    /// Opens component by component; gives the path of what was opened, and the
    /// names that are missing below it.
    fn walk(&self, rel: &str, tolerate: bool) -> Result<(String, Vec<String>), Error> {
        let mut walk =
            WinWalk::begin(&u(ROOT), &u(rel), PathText::of(rel), false, tolerate)?;
        let mut dir = String::new();
        let mut entry = String::new();
        let mut step = Step::OpenRoot;
        loop {
            let event = match step {
                Step::OpenRoot => {
                    dir.clear();
                    Event::RootOpened { volume: self.volume }
                }
                Step::Open { name, directory, descend } => {
                    if descend {
                        dir = entry;
                    }
                    let name = String::from_utf16(&name).unwrap();
                    entry = if dir.is_empty() { name } else { format!(r"{dir}\{name}") };
                    match self.nodes.get(&entry) {
                        None => Event::OpenFailed {
                            status: STATUS_OBJECT_NAME_NOT_FOUND,
                            win32: ERROR_FILE_NOT_FOUND,
                        },
                        Some(Node::File) if directory => {
                            Event::OpenFailed { status: STATUS_NOT_A_DIRECTORY, win32: 267 }
                        }
                        Some(Node::File) => Event::Opened { attributes: Some(0x20) },
                        Some(Node::Dir) => {
                            Event::Opened { attributes: Some(FILE_ATTRIBUTE_DIRECTORY) }
                        }
                        Some(Node::Link(_)) => {
                            Event::Opened { attributes: Some(FILE_ATTRIBUTE_REPARSE_POINT) }
                        }
                    }
                }
                Step::ReadReparse => match &self.nodes[&entry] {
                    Node::Link(data) => Event::Reparse { data: data.clone() },
                    _ => unreachable!(),
                },
                Step::IdentifyEntry | Step::IdentifyDirectory => {
                    Event::Identity { volume: self.volume }
                }
                Step::Entry => return Ok((entry, vec![])),
                Step::Directory => return Ok((dir, vec![])),
                Step::Missing(names) => {
                    let names =
                        names.iter().map(|n| String::from_utf16(n).unwrap()).collect();
                    return Ok((dir, names));
                }
                Step::Failed(e) => return Err(e),
            };
            step = walk.advance(event);
        }
    }

    fn open(&self, rel: &str) -> Result<String, Error> {
        self.walk(rel, false).map(|found| found.0)
    }
}

#[test]
fn plain_nested_directory_round_trip() {
    let mut t = Tree::new();
    t.dir("a");
    t.dir(r"a\b");
    t.file(r"a\b\c.txt");
    assert_eq!(t.open("a/b/c.txt").unwrap(), r"a\b\c.txt");
    assert_eq!(t.open("a/b").unwrap(), r"a\b");
    assert_eq!(t.open("").unwrap(), "");
    // A missing destination keeps its tail.
    let names = ["x", "y", "z.txt"].map(str::to_string).to_vec();
    assert_eq!(t.walk("x/y/z.txt", true).unwrap(), (String::new(), names));
}

#[test]
fn in_root_relative_symlink_in_subdirectory_is_followed() {
    let mut t = Tree::new();
    t.dir("sub");
    t.dir(r"sub\deep");
    t.file(r"sub\real.txt");
    t.file(r"sub\deep\here.txt");
    t.symlink(r"sub\deep\local-link.txt", "here.txt");
    t.symlink(r"sub\deep\up-link.txt", "../real.txt");
    t.symlink(r"sub\deep\bs-link.txt", r"..\real.txt");
    assert_eq!(t.open("sub/deep/local-link.txt").unwrap(), r"sub\deep\here.txt");
    assert_eq!(t.open("sub/deep/up-link.txt").unwrap(), r"sub\real.txt");
    assert_eq!(t.open("sub/deep/bs-link.txt").unwrap(), r"sub\real.txt");
}

#[test]
fn walk_failure_diagnostics_name_component_and_status() {
    let mut t = Tree::new();
    t.dir("a");
    let err = t.open("a/absent/f.txt").unwrap_err();
    assert_eq!(err.kind, ErrorKind::Permission, "{err:?}");
    assert!(err.message.contains("component 1"), "{err:?}");
    assert!(err.message.contains("NTSTATUS 0xC000003"), "{err:?}");
    assert!(err.message.contains(r#"resolved "\\a""#), "{err:?}");
    // A fully absent parent chain reports the first component under the
    // workspace root.
    let err = t.open("gone/f.txt").unwrap_err();
    assert_eq!(err.kind, ErrorKind::Permission, "{err:?}");
    assert!(err.message.contains("component 0"), "{err:?}");
    assert!(err.message.contains(r#"resolved "\\""#), "{err:?}");
}

#[test]
fn names_that_are_no_text_are_shown_lossily() {
    let t = Tree::new();
    let mut rel = u("bad");
    rel.push(0xD800);
    let mut walk =
        WinWalk::begin(&u(ROOT), &rel, PathText::of("bad"), false, false).unwrap();
    walk.advance(Event::RootOpened { volume: t.volume });
    let failed = Event::OpenFailed {
        status: STATUS_OBJECT_NAME_NOT_FOUND,
        win32: ERROR_FILE_NOT_FOUND,
    };
    match walk.advance(failed) {
        Step::Failed(e) => {
            assert_eq!(e.kind, ErrorKind::NotFound);
            assert_eq!(
                e.message,
                "bad (component 0 \"bad\u{FFFD}\", resolved \"\\\\\", NTSTATUS 0xC0000034)"
            );
        }
        other => panic!("a missing entry must fail, got {other:?}"),
    }
}

#[test]
fn in_root_junction_and_symlink_are_followed() {
    let mut t = Tree::new();
    t.dir("real");
    t.file(r"real\f.txt");
    t.junction("jlink", r"C:\ws\real");
    assert_eq!(t.open("jlink/f.txt").unwrap(), r"real\f.txt");
    t.symlink("slink.txt", r"C:\ws\real\f.txt");
    assert_eq!(t.open("slink.txt").unwrap(), r"real\f.txt");
    // Relative file symlink with a `..` that stays inside the root.
    t.symlink(r"real\nested-link.txt", "../real/f.txt");
    assert_eq!(t.open("real/nested-link.txt").unwrap(), r"real\f.txt");
}

#[test]
fn outside_junction_is_denied_and_never_read() {
    let mut t = Tree::new();
    t.junction("evil", r"C:\outside");
    let err = t.open("evil/secret.txt").unwrap_err();
    assert_eq!(err.kind, ErrorKind::Permission, "{err:?}");
    t.symlink("climb", r"..\..\outside");
    assert_eq!(t.open("climb").unwrap_err().kind, ErrorKind::Permission);
}

#[test]
fn escape_hazards_are_denied_before_any_open() {
    let mut t = Tree::new();
    t.file("f.txt");
    let evil: &[&str] = &[
        "..",
        "../out.txt",
        r"\\?\C:\Windows\win.ini",
        r"\\.\C:",
        r"C:\Windows\win.ini",
        "f.txt:stream",
        "/rooted",
    ];
    for e in evil {
        assert!(
            WinWalk::begin(&u(ROOT), &u(e), PathText::of(e), false, false).is_err(),
            "{e} must be denied"
        );
    }
    // A plain relative nested path is not a hazard.
    t.dir("a");
    t.file(r"a\b.txt");
    assert!(t.open(r"a\b.txt").is_ok());
}

#[test]
fn reparse_loop_fails_bounded() {
    let mut t = Tree::new();
    t.symlink("loop.txt", r"C:\ws\loop.txt");
    let err = t.open("loop.txt").unwrap_err();
    assert_eq!(err.kind, ErrorKind::Permission, "{err:?}");
    assert!(err.message.contains("hop bound"), "{err:?}");
}

#[test]
fn unusable_links_and_volumes_are_refused() {
    let mut t = Tree::new();
    t.nodes.insert("cloud".to_string(), Node::Link(reparse(0x9000_001A, Some(0), "x")));
    let err = t.open("cloud").unwrap_err();
    assert_eq!(err.kind, ErrorKind::Permission);
    t.file("f");
    t.dir("d");
    assert_eq!(t.open("f/x").unwrap_err().kind, ErrorKind::Permission);
    t.volume = None;
    assert_eq!(t.open("f").unwrap_err().kind, ErrorKind::Internal);
    // An entry on another volume than the root.
    let mut walk = WinWalk::begin(&u(ROOT), &u("f"), PathText::of("f"), false, false).unwrap();
    walk.advance(Event::RootOpened { volume: Some(0x1f) });
    assert_eq!(walk.advance(Event::Opened { attributes: Some(0) }), Step::IdentifyEntry);
    match walk.advance(Event::Identity { volume: Some(0xab) }) {
        Step::Failed(e) => assert_eq!(
            e.message,
            "\"f\": resolved entry is on volume 0xab, not the workspace volume 0x1f"
        ),
        other => panic!("another volume must be refused, got {other:?}"),
    }
}

#[test]
fn roots_and_system_errors_are_mapped() {
    let root = PathText::of("r");
    assert!(check_root(&root, Some(FILE_ATTRIBUTE_DIRECTORY)).is_ok());
    assert_eq!(check_root(&root, Some(0)).unwrap_err().kind, ErrorKind::NotFound);
    let link = FILE_ATTRIBUTE_DIRECTORY | FILE_ATTRIBUTE_REPARSE_POINT;
    assert_eq!(check_root(&root, Some(link)).unwrap_err().kind, ErrorKind::Permission);
    assert_eq!(check_root(&root, None).unwrap_err().kind, ErrorKind::Internal);
    assert_eq!(map_win32(&root, ERROR_FILE_NOT_FOUND).kind, ErrorKind::NotFound);
    assert_eq!(map_win32(&root, ERROR_ACCESS_DENIED).kind, ErrorKind::Permission);
    assert_eq!(map_win32(&root, 1450).message, "r: win32 error 1450");
    assert_eq!(reparse_retry(16384, ERROR_MORE_DATA), Ok(32768));
    assert_eq!(
        reparse_retry(MAX_REPARSE_BUF, ERROR_MORE_DATA).unwrap_err().kind,
        ErrorKind::Oversized
    );
    assert_eq!(reparse_retry(16384, 1).unwrap_err().kind, ErrorKind::Internal);
}

#[test]
fn resolved_paths_are_held_against_the_root() {
    let rel = PathText::of("f");
    assert!(confine(&u(ROOT), &u(r"C:\WS\f"), &rel, "x").is_ok());
    let e = confine(&u(ROOT), &u(r"C:\wsx\f"), &rel, r"C:\wsx\f").unwrap_err();
    assert_eq!(e.message, "path escapes workspace: \"f\" (resolved C:\\wsx\\f)");
}

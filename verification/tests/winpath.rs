//! Windows paths: which are accepted, and where links may lead.
use faktor::error::{ErrorKind, PathText};
use faktor::winpath::{
    lexical_components, parse_reparse_data, rebase_target, split_relative, units_eq_ci,
    validate_component, PathHazard, Rebase, ReparseError, IO_REPARSE_TAG_MOUNT_POINT,
    IO_REPARSE_TAG_SYMLINK, MAX_COMPONENTS, MAX_SYMLINK_HOPS, SYMLINK_FLAG_RELATIVE,
};

fn u(s: &str) -> Vec<u16> {
    s.encode_utf16().collect()
}

fn comps(s: &str) -> Vec<Vec<u16>> {
    split_relative(&u(s)).expect("relative path must split")
}

fn text(c: &[u16]) -> String {
    String::from_utf16_lossy(c)
}

#[test]
fn hop_bound_is_eight_like_unix() {
    assert_eq!(MAX_SYMLINK_HOPS, 8);
}

#[test]
fn rejects_extended_prefix_and_device_namespace() {
    for evil in [r"\\?\C:\x", r"\\?\C:\ws\x", r"\??\C:\x"] {
        assert_eq!(
            split_relative(&u(evil)),
            Err(PathHazard::ExtendedPrefix),
            "{evil}"
        );
        assert_eq!(
            lexical_components(&u(r"C:\ws"), &u(evil)),
            Err(PathHazard::ExtendedPrefix),
            "{evil} must stay rejected even when in-root"
        );
    }
    for evil in [r"\\.\C:", r"\\.\PhysicalDrive0"] {
        assert_eq!(
            split_relative(&u(evil)),
            Err(PathHazard::DeviceNamespace),
            "{evil}"
        );
    }
}

#[test]
fn rejects_unc_root_rooted_and_drive_relative() {
    assert_eq!(
        split_relative(&u(r"\\server\share\x")),
        Err(PathHazard::UncRoot)
    );
    assert_eq!(split_relative(&u(r"\x")), Err(PathHazard::Rooted));
    assert_eq!(split_relative(&u("/x")), Err(PathHazard::Rooted));
    assert_eq!(split_relative(&u("C:foo")), Err(PathHazard::DriveRelative));
    assert_eq!(split_relative(&u("C:")), Err(PathHazard::DriveRelative));
    assert_eq!(split_relative(&u(r"C:\x")), Err(PathHazard::Rooted));
    // An ESCAPE attempt via an absolute path outside the root.
    assert_eq!(
        lexical_components(&u(r"C:\ws"), &u(r"C:\Windows\system.ini")),
        Err(PathHazard::OutsideWorkspace)
    );
    assert_eq!(
        lexical_components(&u(r"C:\ws"), &u(r"\\evil\share\x")),
        Err(PathHazard::OutsideWorkspace)
    );
    // NT-native single-rooted paths are never verifiable.
    assert_eq!(
        lexical_components(&u(r"C:\ws"), &u(r"\Device\HarddiskVolume1\x")),
        Err(PathHazard::OutsideWorkspace)
    );
}

#[test]
fn rejects_ads_nul_parent_and_separator() {
    assert_eq!(
        split_relative(&u("file.txt:stream")),
        Err(PathHazard::AlternateDataStream)
    );
    // `a:b` parses as a drive-relative path (drive A:, path b) on
    // Windows; either classification must deny.
    assert_eq!(split_relative(&u("a:b:c")), Err(PathHazard::DriveRelative));
    assert_eq!(
        split_relative(&u("dir/name:stream")),
        Err(PathHazard::AlternateDataStream)
    );
    assert_eq!(split_relative(&u("..")), Err(PathHazard::ParentDir));
    assert_eq!(split_relative(&u("a/../b")), Err(PathHazard::ParentDir));
    assert_eq!(split_relative(&u(r"a\..\b")), Err(PathHazard::ParentDir));
    let mut nul = u("a");
    nul.push(0);
    assert_eq!(split_relative(&nul), Err(PathHazard::Nul));
    assert_eq!(
        validate_component(&[u16::from(b'a'), u16::from(b'\\')]),
        Err(PathHazard::Separator)
    );
}

#[test]
fn accepts_nested_paths_and_preserves_case() {
    let c = comps(r"a\b/c");
    assert_eq!(c.len(), 3);
    assert_eq!(text(&c[0]), "a");
    assert_eq!(text(&c[1]), "b");
    assert_eq!(text(&c[2]), "c");
    // Case is preserved verbatim (the walk opens the requested spelling).
    let c = comps("File.TXT");
    assert_eq!(c.len(), 1);
    assert_eq!(text(&c[0]), "File.TXT");
    // `.` segments vanish; empty rel resolves to the root.
    assert_eq!(comps(".").len(), 0);
    assert_eq!(comps("").len(), 0);
    assert_eq!(comps("./a/./b/").len(), 2);
    // Unicode names are fine.
    assert_eq!(text(&comps("rép😀/x")[0]), "rép😀");
    // An absolute path under the canonical root is accepted (unix parity).
    let c = lexical_components(&u(r"C:\ws"), &u(r"C:\ws\src\main.rs")).unwrap();
    assert_eq!(c.len(), 2);
    assert_eq!(text(&c[1]), "main.rs");
    // A sibling directory whose name merely starts with the root name is
    // NOT under it (component-boundary check, not string prefix).
    assert_eq!(
        lexical_components(&u(r"C:\ws"), &u(r"C:\wsx\f.txt")),
        Err(PathHazard::OutsideWorkspace)
    );
    // Empty relative path resolves to the root itself.
    assert!(lexical_components(&u(r"C:\ws"), &[]).unwrap().is_empty());
}

#[test]
fn case_policy_folds_ascii_only_and_is_component_wise() {
    assert!(units_eq_ci(&u(r"c:\WS"), &u(r"C:\ws")));
    assert!(units_eq_ci(&u("A/B"), &u("a/b")));
    // Non-ASCII case is conservatively NOT folded: over-strict denial,
    // never a silent cross-path match.
    assert!(!units_eq_ci(&u("straße"), &u("STRASSE")));
    // Absolute paths under the root match case-insensitively...
    assert_eq!(
        lexical_components(&u(r"C:\ws"), &u(r"c:\WS\SRC\x.rs"))
            .map(|c| c.len())
            .unwrap(),
        2
    );
    // ...but a drive change never matches.
    assert_eq!(
        lexical_components(&u(r"C:\ws"), &u(r"D:\ws\x")),
        Err(PathHazard::OutsideWorkspace)
    );
    // UNC roots compare server+share component-wise.
    assert_eq!(
        lexical_components(&u(r"\\?\UNC\Server\Share\ws"), &u(r"\\server\share\ws\f"))
            .map(|c| c.len())
            .unwrap(),
        1
    );
    assert_eq!(
        lexical_components(&u(r"\\?\UNC\Server\Share\ws"), &u(r"\\server\other\ws\f")),
        Err(PathHazard::OutsideWorkspace)
    );
}

#[test]
fn hazard_error_mapping_is_typed() {
    let p = &PathText::of("x");
    assert_eq!(
        PathHazard::ExtendedPrefix.into_error(p).kind,
        ErrorKind::Permission
    );
    assert_eq!(
        PathHazard::DeviceNamespace.into_error(p).kind,
        ErrorKind::Permission
    );
    assert_eq!(
        PathHazard::UncRoot.into_error(p).kind,
        ErrorKind::Permission
    );
    assert_eq!(
        PathHazard::DriveRelative.into_error(p).kind,
        ErrorKind::Permission
    );
    assert_eq!(PathHazard::Rooted.into_error(p).kind, ErrorKind::Permission);
    assert_eq!(
        PathHazard::ParentDir.into_error(p).kind,
        ErrorKind::Permission
    );
    assert_eq!(
        PathHazard::AlternateDataStream.into_error(p).kind,
        ErrorKind::Permission
    );
    assert_eq!(PathHazard::Nul.into_error(p).kind, ErrorKind::Malformed);
    assert_eq!(
        PathHazard::Separator.into_error(p).kind,
        ErrorKind::Permission
    );
    assert_eq!(
        PathHazard::OutsideWorkspace.into_error(p).kind,
        ErrorKind::Permission
    );
    assert_eq!(
        PathHazard::TooManyComponents.into_error(p).kind,
        ErrorKind::Oversized
    );
}

// ------------------------------------------------- reparse parser

fn reparse(tag: u32, body: &[u8]) -> Vec<u8> {
    let mut out = Vec::new();
    out.extend_from_slice(&tag.to_le_bytes());
    out.extend_from_slice(&(body.len() as u16).to_le_bytes());
    out.extend_from_slice(&0u16.to_le_bytes());
    out.extend_from_slice(body);
    out
}

fn utf16_bytes(s: &str) -> Vec<u8> {
    s.encode_utf16().flat_map(|c| c.to_le_bytes()).collect()
}

fn symlink_body(sub: &str, print: &str, flags: u32) -> Vec<u8> {
    let sub_bytes = utf16_bytes(sub);
    let print_bytes = utf16_bytes(print);
    let mut b = Vec::new();
    b.extend_from_slice(&0u16.to_le_bytes());
    b.extend_from_slice(&(sub_bytes.len() as u16).to_le_bytes());
    b.extend_from_slice(&(sub_bytes.len() as u16).to_le_bytes());
    b.extend_from_slice(&(print_bytes.len() as u16).to_le_bytes());
    b.extend_from_slice(&flags.to_le_bytes());
    b.extend_from_slice(&sub_bytes);
    b.extend_from_slice(&print_bytes);
    b
}

fn mount_body(sub: &str, print: &str) -> Vec<u8> {
    let sub_bytes = utf16_bytes(sub);
    let print_bytes = utf16_bytes(print);
    let mut b = Vec::new();
    b.extend_from_slice(&0u16.to_le_bytes());
    b.extend_from_slice(&(sub_bytes.len() as u16).to_le_bytes());
    b.extend_from_slice(&(sub_bytes.len() as u16).to_le_bytes());
    b.extend_from_slice(&(print_bytes.len() as u16).to_le_bytes());
    b.extend_from_slice(&sub_bytes);
    b.extend_from_slice(&print_bytes);
    b
}

#[test]
fn reparse_parser_extracts_symlink_and_mount_point_targets() {
    let data = reparse(
        IO_REPARSE_TAG_SYMLINK,
        &symlink_body(r"\??\C:\ws\real.txt", r"C:\ws\real.txt", 0),
    );
    let parsed = parse_reparse_data(&data).unwrap();
    assert_eq!(parsed.tag, IO_REPARSE_TAG_SYMLINK);
    assert_eq!(parsed.flags, 0);
    assert_eq!(text(&parsed.substitute), r"\??\C:\ws\real.txt");
    assert_eq!(text(&parsed.print), r"C:\ws\real.txt");

    let data = reparse(
        IO_REPARSE_TAG_SYMLINK,
        &symlink_body("other.txt", "other.txt", SYMLINK_FLAG_RELATIVE),
    );
    let parsed = parse_reparse_data(&data).unwrap();
    assert_eq!(parsed.flags & SYMLINK_FLAG_RELATIVE, 1);
    assert_eq!(text(&parsed.substitute), "other.txt");

    let data = reparse(
        IO_REPARSE_TAG_MOUNT_POINT,
        &mount_body(r"\??\C:\ws\target", r"C:\ws\target"),
    );
    let parsed = parse_reparse_data(&data).unwrap();
    assert_eq!(parsed.tag, IO_REPARSE_TAG_MOUNT_POINT);
    assert_eq!(parsed.flags, 0);
    assert_eq!(text(&parsed.substitute), r"\??\C:\ws\target");
}

#[test]
fn reparse_parser_rejects_malformed_and_unknown() {
    assert_eq!(parse_reparse_data(&[]), Err(ReparseError::TooShort));
    assert_eq!(parse_reparse_data(&[0u8; 4]), Err(ReparseError::TooShort));
    // Declared body longer than the buffer.
    let mut truncated = reparse(IO_REPARSE_TAG_SYMLINK, &symlink_body("x", "x", 0));
    truncated.truncate(truncated.len() - 1);
    assert_eq!(parse_reparse_data(&truncated), Err(ReparseError::Truncated));
    // Odd substitute length.
    let mut body = symlink_body("ab", "", 0);
    body[2] = 3; // substitute length = 3 bytes
    assert_eq!(
        parse_reparse_data(&reparse(IO_REPARSE_TAG_SYMLINK, &body)),
        Err(ReparseError::OddLength)
    );
    // Out-of-bounds offset.
    let mut body = symlink_body("ab", "", 0);
    body[0] = 0xFF; // substitute offset far past the path buffer
    assert_eq!(
        parse_reparse_data(&reparse(IO_REPARSE_TAG_SYMLINK, &body)),
        Err(ReparseError::Truncated)
    );
    // Embedded NUL in the target.
    let mut body = symlink_body("a", "", 0);
    body[13] = 0; // second byte of the single UTF-16 unit
    body[12] = 0;
    assert_eq!(
        parse_reparse_data(&reparse(IO_REPARSE_TAG_SYMLINK, &body)),
        Err(ReparseError::NulInTarget)
    );
    // A cloud/placeholder tag is not whitelisted.
    let data = reparse(0x9000_001A, &[0u8; 12]);
    assert_eq!(parse_reparse_data(&data), Err(ReparseError::UnsupportedTag));
}

#[test]
fn rebase_follows_only_verified_in_root_targets() {
    let root = u(r"C:\ws");
    let pos = vec![u("sub")];

    // Absolute target under the root (NT DOS namespace spelling).
    let rebase = rebase_target(&root, &pos, &u(r"\??\C:\ws\real"), false).unwrap();
    match rebase {
        Rebase::Relocate(c) => assert_eq!(c.into_iter().collect::<Vec<_>>(), vec![u("real")]),
        Rebase::Stay(_) => panic!("absolute target must relocate"),
    }
    // Absolute 8.3-ish path with `.` / `..` that stays in root.
    let rebase = rebase_target(&root, &pos, &u(r"C:\ws\a\..\b"), false).unwrap();
    match rebase {
        Rebase::Relocate(c) => assert_eq!(c.into_iter().collect::<Vec<_>>(), vec![u("b")]),
        Rebase::Stay(_) => panic!(),
    }
    // Absolute target climbing above the root: denied.
    assert_eq!(
        rebase_target(&root, &pos, &u(r"\??\C:\ws\..\outside"), false),
        Err(PathHazard::OutsideWorkspace)
    );
    assert_eq!(
        rebase_target(&root, &pos, &u(r"\??\C:\other\ws"), false),
        Err(PathHazard::OutsideWorkspace)
    );
    // NT-native absolute target: not verifiable.
    assert_eq!(
        rebase_target(&root, &pos, &u(r"\Device\HarddiskVolume1\x"), false),
        Err(PathHazard::OutsideWorkspace)
    );
    // Relative without `..`: continue from the link's parent.
    match rebase_target(&root, &pos, &u("real"), true).unwrap() {
        Rebase::Stay(c) => assert_eq!(c.into_iter().collect::<Vec<_>>(), vec![u("real")]),
        Rebase::Relocate(_) => panic!("plain relative target must stay"),
    }
    // Relative with `..` that stays in root: relocate from the root.
    match rebase_target(&root, &pos, &u(r"..\other"), true).unwrap() {
        Rebase::Relocate(c) => assert_eq!(c.into_iter().collect::<Vec<_>>(), vec![u("other")]),
        Rebase::Stay(_) => panic!(),
    }
    // Relative climbing above the root: denied.
    assert_eq!(
        rebase_target(&root, &pos, &u(r"..\..\escape"), true),
        Err(PathHazard::OutsideWorkspace)
    );
    // Flag/syntax disagreement is malformed on both sides.
    assert_eq!(
        rebase_target(&root, &pos, &u(r"\??\C:\ws\real"), true),
        Err(PathHazard::OutsideWorkspace)
    );
    assert_eq!(
        rebase_target(&root, &pos, &u("relative"), false),
        Err(PathHazard::OutsideWorkspace)
    );
    // Relative target with ADS is rejected component-wise.
    assert_eq!(
        rebase_target(&root, &pos, &u("dir/name:stream"), true),
        Err(PathHazard::AlternateDataStream)
    );
}

#[test]
fn an_accepted_path_has_no_more_than_the_component_limit() {
    let root = u(r"C:\ws");
    let at = u(&"a/".repeat(MAX_COMPONENTS));
    assert!(lexical_components(&root, &at).unwrap().len() == MAX_COMPONENTS);
    let over = u(&"a/".repeat(MAX_COMPONENTS + 1));
    assert!(lexical_components(&root, &over) == Err(PathHazard::TooManyComponents));
}

#[test]
fn hazards_name_the_path() {
    let e = PathHazard::ParentDir.into_error(&PathText::of("a\\..\\b"));
    assert!(e.message.contains("a\\"), "{}", e.message);
}

#[test]
fn reparse_errors_have_labels() {
    let labels: Vec<&str> = [
        ReparseError::TooShort,
        ReparseError::Truncated,
        ReparseError::OddLength,
        ReparseError::NulInTarget,
        ReparseError::UnsupportedTag,
    ]
    .into_iter()
    .map(|e| e.label())
    .collect();
    for (i, a) in labels.iter().enumerate() {
        assert!(!a.is_empty());
        assert!(!labels[i + 1..].contains(a));
    }
}

#[test]
fn a_path_relative_to_a_drive_is_refused_under_every_root() {
    for rel in [r"C:ws\x", "C:x", "C:", "d:x"] {
        assert_eq!(
            lexical_components(&u(r"C:\ws"), &u(rel)),
            Err(PathHazard::DriveRelative),
            "{rel}"
        );
        assert_eq!(split_relative(&u(rel)), Err(PathHazard::DriveRelative), "{rel}");
    }
    // A link target that names the drive is compared behind it.
    for target in [r"C:ws\x", r"\??\C:ws\x"] {
        match rebase_target(&u(r"C:\ws"), &vec![], &u(target), false).unwrap() {
            Rebase::Relocate(c) => assert_eq!(c, vec![u("x")], "{target}"),
            Rebase::Stay(_) => panic!("a target with a drive must relocate"),
        }
    }
}

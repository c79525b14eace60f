use miniserve::entry::{
    is_safe_archive_path, is_safe_name, parse_format, ArchiveError, ArchiveFormat, EntryKind,
    FileEntry, MAX_ARCHIVE_PATH,
};

#[test]
fn relative_paths_without_dots_are_safe() {
    assert!(is_safe_archive_path(b"a.txt"));
    assert!(is_safe_archive_path(b"img/logo.svg"));
    assert!(is_safe_archive_path(b"a/b/c"));
    assert!(is_safe_archive_path(b"..."));
    assert!(is_safe_archive_path(b".hidden/..x/y.."));
    assert!(is_safe_archive_path(b"a/.b"));
}

#[test]
fn paths_that_could_leave_the_archive_are_not_safe() {
    assert!(!is_safe_archive_path(b""));
    assert!(!is_safe_archive_path(b"/etc/passwd"));
    assert!(!is_safe_archive_path(b".."));
    assert!(!is_safe_archive_path(b"../x"));
    assert!(!is_safe_archive_path(b"a/../b"));
    assert!(!is_safe_archive_path(b"a/.."));
    assert!(!is_safe_archive_path(b"."));
    assert!(!is_safe_archive_path(b"a/./b"));
    assert!(!is_safe_archive_path(b"a/."));
    assert!(!is_safe_archive_path(b"a//b"));
    assert!(!is_safe_archive_path(b"a/"));
    assert!(!is_safe_archive_path(b"/"));
    assert!(!is_safe_archive_path(b"a\0b"));
}

#[test]
fn names_are_single_segments() {
    assert!(is_safe_name(b"logo.svg"));
    assert!(!is_safe_name(b"img/logo.svg"));
    assert!(!is_safe_name(b".."));
    assert!(!is_safe_name(b""));
}

#[test]
fn formats_are_tar_and_zip() {
    assert_eq!(parse_format(b"tar"), Ok(ArchiveFormat::Tar));
    assert_eq!(parse_format(b"zip"), Ok(ArchiveFormat::Zip));
    assert_eq!(parse_format(b"rar"), Err(ArchiveError::UnsupportedFormat));
    assert_eq!(parse_format(b"TAR"), Err(ArchiveError::UnsupportedFormat));
    assert_eq!(parse_format(b"tar.gz"), Err(ArchiveError::UnsupportedFormat));
    assert_eq!(parse_format(b""), Err(ArchiveError::UnsupportedFormat));
}

#[test]
fn entries_keep_their_fields() {
    let entry = FileEntry::new(
        b"/srv/docs/a.txt".to_vec(),
        b"docs/a.txt".to_vec(),
        EntryKind::File,
        3,
        77,
        Some(0o640),
    )
    .unwrap();
    assert_eq!(entry.absolute_path(), &b"/srv/docs/a.txt".to_vec());
    assert_eq!(entry.archive_path(), &b"docs/a.txt".to_vec());
    assert_eq!(entry.kind(), EntryKind::File);
    assert_eq!(entry.size(), 3);
    assert_eq!(entry.modified(), 77);
    assert_eq!(entry.unix_mode(), Some(0o640));
    let copy = entry.duplicate();
    assert_eq!(copy.archive_path(), entry.archive_path());
    assert_eq!(copy.absolute_path(), entry.absolute_path());
    assert_eq!(copy.size(), 3);
}

#[test]
fn entries_with_unsafe_or_overlong_paths_do_not_exist() {
    let make = |path: Vec<u8>| FileEntry::new(Vec::new(), path, EntryKind::File, 0, 0, None);
    assert!(make(b"../secret".to_vec()).is_none());
    assert!(make(b"/abs".to_vec()).is_none());
    assert!(make(Vec::new()).is_none());
    assert!(make(vec![b'a'; MAX_ARCHIVE_PATH]).is_some());
    assert!(make(vec![b'a'; MAX_ARCHIVE_PATH + 1]).is_none());
}

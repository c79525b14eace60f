use miniserve::collector::{EntryMeta, PathCollector, RawEntry, WalkStep};
use miniserve::entry::{ArchiveError, ArchiveFormat, ArchiveRequest, EntryKind};

fn meta(kind: EntryKind, size: u64) -> Option<EntryMeta> {
    Some(EntryMeta { kind, size, modified: 1_600_000_000, unix_mode: Some(0o644) })
}

fn file(name: &str, size: u64) -> RawEntry {
    RawEntry { name: name.as_bytes().to_vec(), is_symlink: false, meta: meta(EntryKind::File, size) }
}

fn dir(name: &str) -> RawEntry {
    RawEntry { name: name.as_bytes().to_vec(), is_symlink: false, meta: meta(EntryKind::Directory, 0) }
}

fn link(name: &str, target: Option<EntryMeta>) -> RawEntry {
    RawEntry { name: name.as_bytes().to_vec(), is_symlink: true, meta: target }
}

struct Walked {
    entries: Vec<(String, EntryKind, u64)>,
    asked: Vec<String>,
    end: Result<u64, ArchiveError>,
}

fn walk(follow: bool, max_depth: usize, tree: &dyn Fn(&str) -> Option<Vec<RawEntry>>) -> Walked {
    let request = ArchiveRequest {
        root: b"/srv/docs".to_vec(),
        relative_root: b"docs".to_vec(),
        format: ArchiveFormat::Tar,
        follow_symlinks: follow,
    };
    let mut collector = PathCollector::new(&request, max_depth);
    let mut entries = Vec::new();
    let mut asked = Vec::new();
    loop {
        match collector.next() {
            WalkStep::NeedListing(path) => {
                let path = String::from_utf8(path).unwrap();
                asked.push(path.clone());
                assert!(collector.supply_listing(tree(&path)));
            }
            WalkStep::Entry(e) => {
                let path = String::from_utf8(e.archive_path().clone()).unwrap();
                let absolute = String::from_utf8(e.absolute_path().clone()).unwrap();
                assert_eq!(absolute, format!("/srv/docs/{}", path));
                entries.push((path, e.kind(), e.size()));
            }
            WalkStep::Done => return Walked { entries, asked, end: Ok(collector.warnings()) },
            WalkStep::Failed(e) => return Walked { entries, asked, end: Err(e) },
        }
    }
}

fn docs(path: &str) -> Option<Vec<RawEntry>> {
    match path {
        "/srv/docs" => Some(vec![dir("img"), file("a.txt", 3)]),
        "/srv/docs/img" => Some(vec![file("logo.svg", 120)]),
        _ => None,
    }
}

#[test]
fn docs_are_walked_in_order_with_the_directory_before_its_content() {
    let walked = walk(false, 16, &docs);
    assert_eq!(
        walked.entries,
        vec![
            ("a.txt".to_string(), EntryKind::File, 3),
            ("img".to_string(), EntryKind::Directory, 0),
            ("img/logo.svg".to_string(), EntryKind::File, 120),
        ]
    );
    assert_eq!(walked.asked, vec!["/srv/docs".to_string(), "/srv/docs/img".to_string()]);
    assert_eq!(walked.end, Ok(0));
}

#[test]
fn an_empty_directory_has_no_entries() {
    let walked = walk(false, 16, &|_| Some(Vec::new()));
    assert!(walked.entries.is_empty());
    assert_eq!(walked.end, Ok(0));
}

#[test]
fn names_are_ordered_byte_by_byte() {
    let walked = walk(false, 16, &|path| match path {
        "/srv/docs" => Some(vec![
            file("b", 0),
            file("ab", 0),
            file("a.txt", 0),
            file("B", 0),
            file("a-b", 0),
            file("a", 0),
        ]),
        _ => None,
    });
    let names: Vec<&str> = walked.entries.iter().map(|e| e.0.as_str()).collect();
    assert_eq!(names, vec!["B", "a", "a-b", "a.txt", "ab", "b"]);
}

#[test]
fn a_directory_is_followed_by_its_content_before_its_siblings() {
    let walked = walk(false, 16, &|path| match path {
        "/srv/docs" => Some(vec![file("a.txt", 0), dir("a"), file("z", 0)]),
        "/srv/docs/a" => Some(vec![file("z", 1), dir("b")]),
        "/srv/docs/a/b" => Some(vec![file("c", 2)]),
        _ => None,
    });
    let names: Vec<&str> = walked.entries.iter().map(|e| e.0.as_str()).collect();
    assert_eq!(names, vec!["a", "a/b", "a/b/c", "a/z", "a.txt", "z"]);
    assert_eq!(walked.end, Ok(0));
}

#[test]
fn the_order_of_the_listing_does_not_matter() {
    let forward = walk(false, 16, &|path| match path {
        "/srv/docs" => Some(vec![file("x", 1), dir("d"), file("y", 2), file("a", 3)]),
        "/srv/docs/d" => Some(vec![file("2", 0), file("1", 0)]),
        _ => None,
    });
    let backward = walk(false, 16, &|path| match path {
        "/srv/docs" => Some(vec![file("a", 3), file("y", 2), dir("d"), file("x", 1)]),
        "/srv/docs/d" => Some(vec![file("1", 0), file("2", 0)]),
        _ => None,
    });
    assert_eq!(forward.entries, backward.entries);
    assert_eq!(forward.entries.len(), 6);
}

fn with_links(path: &str) -> Option<Vec<RawEntry>> {
    match path {
        "/srv/docs" => Some(vec![
            link("shortcut", meta(EntryKind::File, 5)),
            file("real", 7),
            link("elsewhere", meta(EntryKind::Directory, 0)),
            link("dangling", None),
        ]),
        "/srv/docs/elsewhere" => Some(vec![file("inside", 9)]),
        _ => None,
    }
}

#[test]
fn symlinks_are_absent_when_not_followed() {
    let walked = walk(false, 16, &with_links);
    assert_eq!(walked.entries, vec![("real".to_string(), EntryKind::File, 7)]);
    assert_eq!(walked.asked, vec!["/srv/docs".to_string()]);
    assert_eq!(walked.end, Ok(3));
}

#[test]
fn symlinks_are_present_with_their_target_when_followed() {
    let walked = walk(true, 16, &with_links);
    assert_eq!(
        walked.entries,
        vec![
            ("elsewhere".to_string(), EntryKind::Directory, 0),
            ("elsewhere/inside".to_string(), EntryKind::File, 9),
            ("real".to_string(), EntryKind::File, 7),
            ("shortcut".to_string(), EntryKind::File, 5),
        ]
    );
    assert_eq!(walked.end, Ok(1));
}

fn chain(path: &str) -> Option<Vec<RawEntry>> {
    match path {
        "/srv/docs" => Some(vec![dir("d1"), file("top", 0)]),
        "/srv/docs/d1" => Some(vec![dir("d2")]),
        "/srv/docs/d1/d2" => Some(vec![dir("d3")]),
        "/srv/docs/d1/d2/d3" => Some(vec![file("deep", 0)]),
        _ => None,
    }
}

#[test]
fn a_tree_deeper_than_the_limit_fails_the_walk() {
    let walked = walk(false, 3, &chain);
    assert_eq!(walked.end, Err(ArchiveError::WalkTooDeep));
    let names: Vec<&str> = walked.entries.iter().map(|e| e.0.as_str()).collect();
    assert_eq!(names, vec!["d1", "d1/d2"]);
    let walked = walk(false, 0, &chain);
    assert_eq!(walked.end, Err(ArchiveError::WalkTooDeep));
    assert!(walked.entries.is_empty());
}

#[test]
fn a_tree_within_the_limit_is_walked_whole() {
    let walked = walk(false, 4, &chain);
    assert_eq!(walked.end, Ok(0));
    let names: Vec<&str> = walked.entries.iter().map(|e| e.0.as_str()).collect();
    assert_eq!(names, vec!["d1", "d1/d2", "d1/d2/d3", "d1/d2/d3/deep", "top"]);
    let flat = walk(false, 0, &|path| match path {
        "/srv/docs" => Some(vec![file("only", 1)]),
        _ => None,
    });
    assert_eq!(flat.end, Ok(0));
    assert_eq!(flat.entries.len(), 1);
}

#[test]
fn an_unreadable_root_fails_the_walk() {
    let walked = walk(false, 16, &|_| None);
    assert_eq!(walked.end, Err(ArchiveError::RootUnreadable));
    assert!(walked.entries.is_empty());
}

#[test]
fn an_unreadable_directory_below_the_root_is_a_warning() {
    let walked = walk(false, 16, &|path| match path {
        "/srv/docs" => Some(vec![dir("locked"), file("open", 1)]),
        _ => None,
    });
    let names: Vec<&str> = walked.entries.iter().map(|e| e.0.as_str()).collect();
    assert_eq!(names, vec!["locked", "open"]);
    assert_eq!(walked.end, Ok(1));
}

#[test]
fn lines_that_cannot_become_entries_are_passed_over_with_a_warning() {
    let walked = walk(false, 16, &|path| match path {
        "/srv/docs" => Some(vec![
            file("..", 0),
            file(".", 0),
            file("a/b", 0),
            file("", 0),
            file("nul\0", 0),
            RawEntry { name: b"unknown".to_vec(), is_symlink: false, meta: None },
            RawEntry { name: b"odd".to_vec(), is_symlink: false, meta: meta(EntryKind::Symlink, 0) },
            file("twice", 1),
            file("twice", 2),
            file("fine", 0),
        ]),
        _ => None,
    });
    let names: Vec<&str> = walked.entries.iter().map(|e| e.0.as_str()).collect();
    assert_eq!(names, vec!["fine", "twice"]);
    assert_eq!(walked.end, Ok(8));
}

#[test]
fn the_collector_repeats_its_wish_and_ignores_answers_out_of_turn() {
    let request = ArchiveRequest {
        root: b"/r".to_vec(),
        relative_root: Vec::new(),
        format: ArchiveFormat::Zip,
        follow_symlinks: false,
    };
    let mut collector = PathCollector::new(&request, 8);
    assert!(matches!(collector.next(), WalkStep::NeedListing(p) if p == b"/r".to_vec()));
    assert!(matches!(collector.next(), WalkStep::NeedListing(p) if p == b"/r".to_vec()));
    assert!(collector.supply_listing(Some(vec![file("f", 1)])));
    assert!(!collector.supply_listing(Some(vec![file("g", 1)])));
    assert!(matches!(collector.next(), WalkStep::Entry(e) if e.archive_path() == &b"f".to_vec()));
    assert!(matches!(collector.next(), WalkStep::Done));
    assert!(matches!(collector.next(), WalkStep::Done));
    assert!(!collector.supply_listing(None));
    assert_eq!(collector.warnings(), 0);
}

#[test]
fn no_path_is_handed_out_twice() {
    let walked = walk(true, 16, &|path| match path {
        "/srv/docs" => Some(vec![dir("a"), file("a", 1), dir("b"), file("a.b", 0)]),
        "/srv/docs/a" => Some(vec![file("b", 1), dir("a")]),
        "/srv/docs/a/a" => Some(vec![file("a", 2)]),
        "/srv/docs/b" => Some(vec![file("a", 3)]),
        _ => None,
    });
    let mut paths: Vec<&str> = walked.entries.iter().map(|e| e.0.as_str()).collect();
    assert_eq!(paths, vec!["a", "a/a", "a/a/a", "a/b", "a.b", "b", "b/a"]);
    paths.sort();
    paths.dedup();
    assert_eq!(paths.len(), 7);
    assert_eq!(walked.end, Ok(1));
}

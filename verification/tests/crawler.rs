use rust_finder::crawler::{
    CrawlError, Crawler, Listing, RawEntry, RawMetadata, ReadFailure, WarningKind,
};
use rust_finder::entry::{EntryKind, Timestamp};
use rust_finder::search::{search, Scorer};

fn file(name: &str, size: u64) -> RawEntry {
    RawEntry {
        name: Some(name.to_string()),
        metadata: Ok(RawMetadata { size, is_dir: false, is_file: true, created_at: None }),
        leads_to_directory: false,
    }
}

fn dir(name: &str) -> RawEntry {
    RawEntry {
        name: Some(name.to_string()),
        metadata: Ok(RawMetadata { size: 0, is_dir: true, is_file: false, created_at: None }),
        leads_to_directory: true,
    }
}

fn listing(entries: Vec<RawEntry>) -> Listing {
    Listing { entries, failure: None }
}

fn missing() -> Listing {
    Listing { entries: Vec::new(), failure: Some(ReadFailure::Other) }
}

fn drive(root: &str, max_depth: usize, skip: &[&str], read: &dyn Fn(&str) -> Listing) -> Crawler {
    let skip_names: Vec<String> = skip.iter().map(|s| s.to_string()).collect();
    let mut crawler = Crawler::new(root.to_string(), max_depth, skip_names);
    let mut asked = 0;
    while let Some(path) = crawler.next_directory() {
        asked += 1;
        assert!(asked < 10_000, "the crawl does not end");
        assert!(crawler.record_listing(&read(&path)));
    }
    assert!(crawler.is_finished());
    crawler
}

fn names_of(crawler: &Crawler) -> Vec<String> {
    crawler.store().records().iter().map(|r| r.name.clone()).collect()
}

fn paths_of(crawler: &Crawler) -> Vec<String> {
    crawler.store().records().iter().map(|r| r.path.clone()).collect()
}

fn home(path: &str) -> Listing {
    match path {
        "/home" => listing(vec![
            file("Report.pdf", 10),
            file("report_draft.txt", 20),
            dir("Library"),
        ]),
        "/home/Library" => listing(vec![file("secret.txt", 30)]),
        _ => missing(),
    }
}

// a chain root/d1/d2/d3/..., each directory holding one file f<k> and the next directory
fn chain(path: &str) -> Listing {
    let depth = path.matches("/d").count();
    listing(vec![file(&format!("f{}", depth), 1), dir(&format!("d{}", depth + 1))])
}

#[test]
fn new_crawler_asks_for_the_root_first() {
    let mut crawler = Crawler::new("/home".to_string(), 5, vec!["Library".to_string()]);
    assert!(!crawler.is_finished());
    assert_eq!(crawler.next_directory(), Some("/home".to_string()));
    assert_eq!(crawler.next_directory(), Some("/home".to_string()));
    assert!(crawler.store().is_empty());
    assert!(crawler.warnings().is_empty());
}

#[test]
fn listing_without_an_awaited_directory_changes_nothing() {
    let mut crawler = Crawler::new("/home".to_string(), 5, Vec::new());
    assert!(!crawler.record_listing(&home("/home")));
    assert!(crawler.store().is_empty());
    assert_eq!(crawler.next_directory(), Some("/home".to_string()));
}

#[test]
fn skipped_root_ends_the_crawl_at_once() {
    let mut crawler = Crawler::new("/home/Library".to_string(), 5, vec!["Library".to_string()]);
    assert!(crawler.is_finished());
    assert_eq!(crawler.next_directory(), None);
    let mut crawler = Crawler::new("/home/Library/".to_string(), 5, vec!["Library".to_string()]);
    assert_eq!(crawler.next_directory(), None);
}

#[test]
fn scenario_skipped_directory_is_listed_but_not_entered() {
    let crawler = drive("/home", 5, &["Library"], &home);
    assert_eq!(names_of(&crawler), vec!["Report.pdf", "report_draft.txt", "Library"]);
    assert_eq!(
        paths_of(&crawler),
        vec!["/home/Report.pdf", "/home/report_draft.txt", "/home/Library"]
    );
    assert!(crawler.store().get("secret.txt").is_none());
    let library = crawler.store().get("Library").unwrap();
    assert_eq!(library.kind, EntryKind::Directory);
    assert!(crawler.warnings().is_empty());
}

#[test]
fn scenario_search_finds_reports_and_never_the_secret() {
    let crawler = drive("/home", 5, &["Library"], &home);
    let store = crawler.into_store();
    let found = search(&store, &Scorer::Prefix, "report").unwrap();
    let names: Vec<&str> = found.iter().map(|r| r.name.as_str()).collect();
    assert_eq!(names, vec!["Report.pdf", "report_draft.txt"]);
    let found = search(&store, &Scorer::Prefix, "REPORT").unwrap();
    assert_eq!(found.len(), 2);
    let found = search(&store, &Scorer::Prefix, "secret").unwrap();
    assert!(found.is_empty());
}

#[test]
fn without_the_skip_the_secret_is_indexed() {
    let crawler = drive("/home", 5, &[], &home);
    assert_eq!(
        names_of(&crawler),
        vec!["Report.pdf", "report_draft.txt", "Library", "secret.txt"]
    );
    assert_eq!(crawler.store().get("secret.txt").unwrap().path, "/home/Library/secret.txt");
}

#[test]
fn depth_bound_keeps_deeper_files_out() {
    // files f0..f3 lie at depth 0..3; with max_depth 2 the file at depth 2 is
    // indexed and the file at depth 3 is not
    let crawler = drive("/root", 2, &[], &chain);
    assert_eq!(names_of(&crawler), vec!["f0", "d1", "f1", "d2", "f2", "d3"]);
    assert!(crawler.store().contains_name("f2"));
    assert!(!crawler.store().contains_name("f3"));
    assert_eq!(crawler.store().get("f2").unwrap().path, "/root/d1/d2/f2");
}

#[test]
fn depth_zero_reads_the_root_only() {
    let crawler = drive("/root", 0, &[], &chain);
    assert_eq!(names_of(&crawler), vec!["f0", "d1"]);
}

#[test]
fn traversal_is_breadth_first() {
    let read = |path: &str| match path {
        "/r" => listing(vec![dir("a"), dir("b"), file("top", 1)]),
        "/r/a" => listing(vec![dir("a1"), file("in_a", 1)]),
        "/r/b" => listing(vec![file("in_b", 1)]),
        "/r/a/a1" => listing(vec![file("deep", 1)]),
        _ => missing(),
    };
    let crawler = drive("/r", 5, &[], &read);
    assert_eq!(names_of(&crawler), vec!["a", "b", "top", "a1", "in_a", "in_b", "deep"]);
}

#[test]
fn later_entry_with_the_same_name_replaces_the_earlier() {
    let read = |path: &str| match path {
        "/r" => listing(vec![file("same.txt", 1), dir("sub")]),
        "/r/sub" => listing(vec![file("same.txt", 2)]),
        _ => missing(),
    };
    let crawler = drive("/r", 5, &[], &read);
    assert_eq!(names_of(&crawler), vec!["same.txt", "sub"]);
    let record = crawler.store().get("same.txt").unwrap();
    assert_eq!(record.path, "/r/sub/same.txt");
    assert_eq!(record.size, 2);
}

#[test]
fn crawling_twice_gives_the_same_store() {
    let first = drive("/home", 5, &["Library"], &home);
    let second = drive("/home", 5, &["Library"], &home);
    assert_eq!(names_of(&first), names_of(&second));
    assert_eq!(paths_of(&first), paths_of(&second));
    let sizes = |c: &Crawler| c.store().records().iter().map(|r| r.size).collect::<Vec<u64>>();
    assert_eq!(sizes(&first), sizes(&second));
}

#[test]
fn record_carries_the_metadata_of_the_entry() {
    let read = |path: &str| match path {
        "/r" => listing(vec![
            RawEntry {
                name: Some("photo.JPG".to_string()),
                metadata: Ok(RawMetadata {
                    size: 123,
                    is_dir: false,
                    is_file: true,
                    created_at: Some(Timestamp { secs: 1_700_000_000, nanos: 5 }),
                }),
                leads_to_directory: false,
            },
            RawEntry {
                name: Some("link".to_string()),
                metadata: Ok(RawMetadata { size: 9, is_dir: false, is_file: false, created_at: None }),
                leads_to_directory: true,
            },
        ]),
        "/r/link" => listing(vec![file("behind_link", 1)]),
        _ => missing(),
    };
    let crawler = drive("/r", 5, &[], &read);
    let photo = crawler.store().get("photo.JPG").unwrap();
    assert_eq!(photo.size, 123);
    assert_eq!(photo.kind, EntryKind::File);
    assert_eq!(photo.created_at, Some(Timestamp { secs: 1_700_000_000, nanos: 5 }));
    assert_eq!(photo.extension, "JPG");
    assert_eq!(photo.path, "/r/photo.JPG");
    // a link to a directory is of unknown kind, and the crawl follows it
    let link = crawler.store().get("link").unwrap();
    assert_eq!(link.kind, EntryKind::Unknown);
    assert_eq!(link.created_at, None);
    assert!(crawler.store().contains_name("behind_link"));
}

#[test]
fn unreadable_entries_leave_warnings_and_the_crawl_goes_on() {
    let read = |path: &str| match path {
        "/r" => Listing {
            entries: vec![
                RawEntry { name: None, metadata: Err(ReadFailure::Other), leads_to_directory: false },
                RawEntry {
                    name: Some("locked".to_string()),
                    metadata: Err(ReadFailure::PermissionDenied),
                    leads_to_directory: true,
                },
                RawEntry {
                    name: Some("broken".to_string()),
                    metadata: Err(ReadFailure::Other),
                    leads_to_directory: false,
                },
                file("fine.txt", 1),
                dir("private"),
                dir("gone"),
            ],
            failure: None,
        },
        "/r/private" => Listing { entries: Vec::new(), failure: Some(ReadFailure::PermissionDenied) },
        "/r/gone" => Listing { entries: vec![file("partial", 1)], failure: Some(ReadFailure::Other) },
        _ => missing(),
    };
    let crawler = drive("/r", 5, &[], &read);
    assert_eq!(names_of(&crawler), vec!["fine.txt", "private", "gone", "partial"]);
    let warnings: Vec<(WarningKind, &str)> =
        crawler.warnings().iter().map(|w| (w.kind, w.path.as_str())).collect();
    assert_eq!(
        warnings,
        vec![
            (WarningKind::NameNotUtf8, "/r"),
            (WarningKind::EntryDenied, "/r/locked"),
            (WarningKind::EntryUnreadable, "/r/broken"),
            (WarningKind::DirectoryDenied, "/r/private"),
            (WarningKind::DirectoryUnreadable, "/r/gone"),
        ]
    );
}

#[test]
fn unreadable_root_gives_an_empty_store_and_a_warning() {
    let crawler = drive("/nowhere", 5, &[], &|_| missing());
    assert!(crawler.store().is_empty());
    assert_eq!(crawler.warnings().len(), 1);
    assert_eq!(crawler.warnings()[0].kind, WarningKind::DirectoryUnreadable);
    assert_eq!(crawler.warnings()[0].path, "/nowhere");
}

#[test]
fn skip_rule_holds_at_every_depth() {
    let read = |path: &str| match path {
        "/r" => listing(vec![dir("keep")]),
        "/r/keep" => listing(vec![dir("node_modules"), dir("src")]),
        "/r/keep/node_modules" => listing(vec![file("hidden.js", 1)]),
        "/r/keep/src" => listing(vec![file("main.rs", 1), dir(".git")]),
        "/r/keep/src/.git" => listing(vec![file("HEAD", 1)]),
        _ => missing(),
    };
    let crawler = drive("/r", 9, &["node_modules", ".git"], &read);
    assert_eq!(names_of(&crawler), vec!["keep", "node_modules", "src", "main.rs", ".git"]);
    for path in paths_of(&crawler) {
        assert!(!path.contains("/node_modules/"));
        assert!(!path.contains("/.git/"));
        assert!(path.starts_with("/r/"));
    }
}

#[test]
fn a_tree_that_loops_is_cut_off_by_the_depth_bound() {
    // every directory holds a link back to a directory: without the bound the crawl would not end
    let read = |_: &str| listing(vec![dir("again")]);
    let crawler = drive("/r", 20, &[], &read);
    assert_eq!(names_of(&crawler), vec!["again"]);
    let deepest = crawler.store().get("again").unwrap();
    assert_eq!(deepest.path.matches("/again").count(), 21);
}

#[test]
fn crawl_without_a_root_is_an_error() {
    let made = Crawler::try_new(String::new(), 5, vec!["Library".to_string()]);
    assert_eq!(made.err(), Some(CrawlError::RootNotSet));
    let mut crawler = Crawler::try_new("/home".to_string(), 5, vec!["Library".to_string()]).unwrap();
    assert_eq!(crawler.next_directory(), Some("/home".to_string()));
    assert!(crawler.store().is_empty());
    let mut skipped = Crawler::try_new("/home/Library".to_string(), 5, vec!["Library".to_string()]).unwrap();
    assert_eq!(skipped.next_directory(), None);
}

// the same name at the root and three directories down
fn twins(path: &str) -> Listing {
    match path {
        "/top" => listing(vec![file("note", 1), dir("a")]),
        "/top/a" => listing(vec![dir("b")]),
        "/top/a/b" => listing(vec![dir("c")]),
        "/top/a/b/c" => listing(vec![file("note", 4)]),
        _ => missing(),
    }
}

#[test]
fn no_record_has_a_path_below_the_depth_bound() {
    let crawler = drive("/top", 2, &[], &twins);
    assert_eq!(paths_of(&crawler), vec!["/top/note", "/top/a", "/top/a/b", "/top/a/b/c"]);
    let note = crawler.store().get("note").unwrap();
    assert_eq!(note.path, "/top/note");
    assert_eq!(note.size, 1);
    assert!(paths_of(&crawler).iter().all(|p| p != "/top/a/b/c/note"));
}

#[test]
fn an_entry_with_a_name_of_its_own_keeps_its_path_to_the_end() {
    let crawler = drive("/top", 3, &["b"], &twins);
    assert_eq!(paths_of(&crawler), vec!["/top/note", "/top/a", "/top/a/b"]);
    let skipped = crawler.store().get("b").unwrap();
    assert_eq!(skipped.path, "/top/a/b");
    assert_eq!(skipped.kind, EntryKind::Directory);
    assert_eq!(crawler.store().get("note").unwrap().path, "/top/note");
}

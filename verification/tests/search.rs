use rust_finder::entry::{EntryKind, EntryRecord};
use rust_finder::fuzzy::FuzzyScorer;
use rust_finder::search::{
    search, search_parallel, search_sequential, search_with_workers, select_matches, Scorer,
    PARALLEL_THRESHOLD,
};
use rust_finder::store::IndexStore;

fn record(name: &str) -> EntryRecord {
    EntryRecord::new(name.to_string(), format!("/r/{}", name), 1, EntryKind::File, None)
}

fn store_of(names: &[&str]) -> IndexStore {
    let mut store = IndexStore::new();
    for name in names {
        store.insert(record(name));
    }
    store
}

fn names(found: &[EntryRecord]) -> Vec<String> {
    found.iter().map(|r| r.name.clone()).collect()
}

fn big_store(count: usize) -> IndexStore {
    let mut store = IndexStore::new();
    for i in 0..count {
        let name = match i % 4 {
            0 => format!("Report_{}.pdf", i),
            1 => format!("notes_{}.txt", i),
            2 => format!("REPORTING-{}.md", i),
            _ => format!("x{}", i),
        };
        store.insert(record(&name));
    }
    store
}

#[test]
fn prefix_search_is_case_insensitive_and_keeps_store_order() {
    let store = store_of(&["Report.pdf", "notes.txt", "report_draft.txt", "preport.txt"]);
    let found = search_sequential(&store, &Scorer::Prefix, "rePort");
    assert_eq!(names(&found), vec!["Report.pdf", "report_draft.txt"]);
}

#[test]
fn search_matches_the_stem_not_the_extension() {
    let store = store_of(&["a.pdf", "pdf.a", "pdfs"]);
    let found = search_sequential(&store, &Scorer::Prefix, "pdf");
    assert_eq!(names(&found), vec!["pdf.a", "pdfs"]);
    let found = search_sequential(&store, &Scorer::Prefix, "a.pdf");
    assert!(found.is_empty());
}

#[test]
fn exact_stem_finds_the_record() {
    let all = ["Report.pdf", "notes.txt", ".profile", "archive.tar.gz", "README", "Ünïcode.txt"];
    for scorer in [Scorer::Prefix, Scorer::Fuzzy(FuzzyScorer::new())] {
        let mut store = IndexStore::new();
        for name in all {
            let inserted = record(name);
            let stem = inserted.stem();
            store.insert(inserted);
            let found = search(&store, &scorer, &stem).unwrap();
            assert!(names(&found).contains(&name.to_string()), "{} by its stem {}", name, stem);
        }
    }
}

#[test]
fn empty_query_matches_everything_by_prefix() {
    let store = store_of(&["a.txt", "b", ".c"]);
    let found = search(&store, &Scorer::Prefix, "").unwrap();
    assert_eq!(names(&found), vec!["a.txt", "b", ".c"]);
}

#[test]
fn empty_query_matches_only_empty_stems_by_fuzzy() {
    let store = store_of(&["a.txt", "b", ".."]);
    let found = search(&store, &Scorer::Fuzzy(FuzzyScorer::new()), "").unwrap();
    assert_eq!(names(&found), vec![".."]);
}

#[test]
fn search_of_an_empty_store_finds_nothing() {
    let store = IndexStore::new();
    assert!(search(&store, &Scorer::Prefix, "a").unwrap().is_empty());
    assert!(search(&store, &Scorer::Prefix, "").unwrap().is_empty());
}

#[test]
fn select_keeps_scores_at_the_threshold_and_drops_those_below() {
    let records = vec![record("a"), record("b"), record("c"), record("d")];
    let picked = select_matches(&records, &vec![20, 19, 1000, 0]);
    assert_eq!(names(&picked), vec!["a", "c"]);
    let picked = select_matches(&records, &vec![19, 21, -1, 20]);
    assert_eq!(names(&picked), vec!["b", "d"]);
}

#[test]
fn select_leaves_out_records_without_a_score() {
    let records = vec![record("a"), record("b"), record("c")];
    let picked = select_matches(&records, &vec![1000]);
    assert_eq!(names(&picked), vec!["a"]);
    let picked = select_matches(&records, &vec![1000, 1000, 1000, 1000]);
    assert_eq!(names(&picked), vec!["a", "b", "c"]);
    let picked = select_matches(&records, &Vec::new());
    assert!(picked.is_empty());
}

#[test]
fn parallel_and_sequential_search_agree_on_five_thousand_entries() {
    let store = big_store(5000);
    assert!(store.len() > PARALLEL_THRESHOLD);
    for query in ["report", "REPORT", "notes_1", "x", "", "zzz"] {
        let sequential = search_sequential(&store, &Scorer::Prefix, query);
        let parallel = search_parallel(&store, &Scorer::Prefix, query, 4).unwrap();
        assert_eq!(names(&parallel), names(&sequential), "query {:?}", query);
        let paths = |found: &[EntryRecord]| found.iter().map(|r| r.path.clone()).collect::<Vec<_>>();
        assert_eq!(paths(&parallel), paths(&sequential));
    }
    let found = search_sequential(&store, &Scorer::Prefix, "report");
    assert_eq!(found.len(), 2500);
}

#[test]
fn parallel_and_sequential_fuzzy_search_agree() {
    let store = big_store(1500);
    let scorer = Scorer::Fuzzy(FuzzyScorer::new());
    for query in ["rprt", "nts", "report_4"] {
        let sequential = search_sequential(&store, &scorer, query);
        let parallel = search_parallel(&store, &scorer, query, 3).unwrap();
        assert_eq!(names(&parallel), names(&sequential), "query {:?}", query);
        assert!(!sequential.is_empty());
    }
}

#[test]
fn search_picks_the_parallel_path_for_large_stores() {
    let large = big_store(PARALLEL_THRESHOLD + 1);
    let found = search(&large, &Scorer::Prefix, "report").unwrap();
    assert_eq!(names(&found), names(&search_sequential(&large, &Scorer::Prefix, "report")));
    let found = search_with_workers(&large, &Scorer::Prefix, "notes", 2).unwrap();
    assert_eq!(names(&found), names(&search_sequential(&large, &Scorer::Prefix, "notes")));
    let small = big_store(PARALLEL_THRESHOLD);
    let found = search_with_workers(&small, &Scorer::Prefix, "notes", 2).unwrap();
    assert_eq!(found.len(), 250);
}

#[test]
fn scorer_scores_candidates() {
    assert_eq!(Scorer::Prefix.score("report", "rep"), 1000);
    assert_eq!(Scorer::Prefix.score("report", "port"), 0);
    let fuzzy = Scorer::Fuzzy(FuzzyScorer::new());
    assert_eq!(fuzzy.score("report", "report"), 1000);
    assert_eq!(fuzzy.score("ab", "a"), 31);
    assert_eq!(fuzzy.score("report", "xyz"), 0);
    assert_eq!(Scorer::Prefix.score_entry(&record("Report.PDF"), "report"), 1000);
    assert_eq!(fuzzy.score_entry(&record("AB.txt"), "a"), 31);
}

#[test]
fn fuzzy_search_finds_subsequences_above_the_threshold() {
    let store = store_of(&["Report.pdf", "notes.txt", "report_draft.txt", "xyz"]);
    let found = search(&store, &Scorer::Fuzzy(FuzzyScorer::new()), "rprt").unwrap();
    assert_eq!(names(&found), vec!["Report.pdf", "report_draft.txt"]);
    let found = search(&store, &Scorer::Fuzzy(FuzzyScorer::new()), "q").unwrap();
    assert!(found.is_empty());
}

#[test]
fn search_in_a_pool_built_before_agrees_with_sequential_search() {
    let store = big_store(300);
    let pool = rayon::ThreadPoolBuilder::new().num_threads(2).build().unwrap();
    for query in ["report", "notes", "", "zzz"] {
        let found = rust_finder::search::search_in_pool(&store, &Scorer::Prefix, query, &pool);
        assert_eq!(names(&found), names(&search_sequential(&store, &Scorer::Prefix, query)));
    }
    let found = rust_finder::search::search_in_pool(&store, &Scorer::Prefix, "report", &pool);
    assert_eq!(found.len(), 150);
}

#[test]
fn search_with_a_pool_succeeds_and_without_one_fails() {
    let store = big_store(40);
    let built = rayon::ThreadPoolBuilder::new().num_threads(2).build();
    assert!(built.is_ok());
    let found = rust_finder::search::search_with_pool(&store, &Scorer::Prefix, "notes", built).unwrap();
    assert_eq!(found.len(), 10);

    // the global pool can be set up once only: the second attempt gives an error
    let _ = rayon::ThreadPoolBuilder::new().build_global();
    let failed = rayon::ThreadPoolBuilder::new().build_global().unwrap_err();
    let found = rust_finder::search::search_with_pool(&store, &Scorer::Prefix, "notes", Err(failed));
    match found {
        Err(rust_finder::search::SearchError::PoolUnavailable(cause)) => {
            assert!(cause.starts_with("Failed to build Rayon thread pool: "), "{}", cause);
            assert!(cause.len() > "Failed to build Rayon thread pool: ".len());
        }
        Ok(_) => panic!("a search without a pool gave a result"),
    }
}

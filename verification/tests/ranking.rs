use rust_finder::entry::{EntryKind, EntryRecord};
use rust_finder::fuzzy::FuzzyScorer;
use rust_finder::ranking::{comes_before, rank_matches, search_ranked, ScoredMatch};
use rust_finder::search::{search_sequential, Scorer};
use rust_finder::store::IndexStore;

fn record(name: &str) -> EntryRecord {
    EntryRecord::new(name.to_string(), format!("/r/{}", name), 1, EntryKind::File, None)
}

fn names_and_scores(ranked: &[ScoredMatch]) -> Vec<(String, i16)> {
    ranked.iter().map(|m| (m.record.name.clone(), m.score)).collect()
}

#[test]
fn text_order_is_the_order_of_the_dictionary() {
    assert!(comes_before("a", "b"));
    assert!(!comes_before("b", "a"));
    assert!(!comes_before("a", "a"));
    assert!(comes_before("", "a"));
    assert!(!comes_before("a", ""));
    assert!(!comes_before("", ""));
    assert!(comes_before("ab", "abc"));
    assert!(comes_before("abc", "abd"));
    assert!(comes_before("Z", "a"));
}

#[test]
fn text_order_agrees_with_the_standard_library() {
    let texts = ["", "a", "A", "ab", "abc", "b", "é", "z", "日本", "日", "\u{10FFFF}", "~", "a b"];
    for a in texts {
        for b in texts {
            assert_eq!(comes_before(a, b), a < b, "{:?} before {:?}", a, b);
        }
    }
}

#[test]
fn higher_score_ranks_first_and_names_break_ties() {
    let records = vec![record("delta"), record("alpha"), record("charlie"), record("bravo"), record("echo")];
    let ranked = rank_matches(&records, &vec![30, 30, 1000, 30, 19]);
    assert_eq!(
        names_and_scores(&ranked),
        vec![
            ("charlie".to_string(), 1000),
            ("alpha".to_string(), 30),
            ("bravo".to_string(), 30),
            ("delta".to_string(), 30),
        ]
    );
}

#[test]
fn ranking_keeps_exactly_the_matches() {
    let records: Vec<EntryRecord> = (0..200).map(|i| record(&format!("f{:03}", (i * 37) % 200))).collect();
    let scores: Vec<i16> = (0..200).map(|i| ((i * 13) % 50) as i16).collect();
    let ranked = rank_matches(&records, &scores);
    let expected = scores.iter().filter(|s| **s >= 20).count();
    assert_eq!(ranked.len(), expected);
    for pair in ranked.windows(2) {
        let (a, b) = (&pair[0], &pair[1]);
        assert!(a.score > b.score || (a.score == b.score && a.record.name <= b.record.name));
    }
    for scored in &ranked {
        let position = records.iter().position(|r| r.name == scored.record.name).unwrap();
        assert_eq!(scores[position], scored.score);
    }
}

#[test]
fn ranking_of_nothing_is_empty() {
    assert!(rank_matches(&Vec::new(), &Vec::new()).is_empty());
    assert!(rank_matches(&vec![record("a")], &vec![19]).is_empty());
    assert!(rank_matches(&vec![record("a")], &Vec::new()).is_empty());
    let one = rank_matches(&vec![record("a")], &vec![20]);
    assert_eq!(names_and_scores(&one), vec![("a".to_string(), 20)]);
}

#[test]
fn ranked_search_puts_the_best_match_first() {
    let mut store = IndexStore::new();
    for name in ["my_report_old.txt", "report.pdf", "repo_rt.md", "notes.txt", "Report.docx"] {
        store.insert(record(name));
    }
    let scorer = Scorer::Fuzzy(FuzzyScorer::new());
    let ranked = search_ranked(&store, &scorer, "report");
    // the two whose stem is the query score the top score, in the order of their names
    assert_eq!(ranked[0].record.name, "Report.docx");
    assert_eq!(ranked[0].score, 1000);
    assert_eq!(ranked[1].record.name, "report.pdf");
    assert_eq!(ranked[1].score, 1000);
    for pair in ranked.windows(2) {
        assert!(pair[0].score >= pair[1].score);
    }
    let mut ranked_names: Vec<String> = ranked.iter().map(|m| m.record.name.clone()).collect();
    let mut found_names: Vec<String> =
        search_sequential(&store, &scorer, "report").iter().map(|r| r.name.clone()).collect();
    ranked_names.sort();
    found_names.sort();
    assert_eq!(ranked_names, found_names);
    assert!(!ranked_names.contains(&"notes.txt".to_string()));
}

#[test]
fn ranked_prefix_search_is_sorted_by_name() {
    let mut store = IndexStore::new();
    for name in ["zeta.txt", "Alpha.txt", "beta.txt", "alpha2.txt"] {
        store.insert(record(name));
    }
    let ranked = search_ranked(&store, &Scorer::Prefix, "");
    let names: Vec<&str> = ranked.iter().map(|m| m.record.name.as_str()).collect();
    assert_eq!(names, vec!["Alpha.txt", "alpha2.txt", "beta.txt", "zeta.txt"]);
}

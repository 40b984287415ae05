use fuzzy_matcher::skim::SkimMatcherV2;
use fuzzy_matcher::FuzzyMatcher;
use rust_finder::fuzzy::{score_from_match, FuzzyScorer, MAX_FUZZY_CHARS};

#[test]
fn exact_match_has_the_top_score() {
    let scorer = FuzzyScorer::new();
    assert_eq!(scorer.score_filename("report", "report"), 1000);
    assert_eq!(scorer.score_filename("", ""), 1000);
}

#[test]
fn no_alignment_scores_zero() {
    let scorer = FuzzyScorer::new();
    assert_eq!(scorer.score_filename("report", "xyz"), 0);
    assert_eq!(scorer.score_filename("abc", "cba"), 0);
    assert_eq!(scorer.score_filename("", "a"), 0);
}

#[test]
fn empty_query_scores_zero_against_a_candidate() {
    let scorer = FuzzyScorer::new();
    assert_eq!(scorer.score_filename("report", ""), 0);
}

#[test]
fn alignment_score_is_the_matchers() {
    let scorer = FuzzyScorer::new();
    assert_eq!(scorer.score_filename("ab", "a"), 31);
    for (choice, pattern) in [("axbycz", "abc"), ("report_draft", "rd"), ("Report", "report"), ("report", "Report")] {
        let matcher = SkimMatcherV2::default().smart_case();
        let expected = matcher.fuzzy_match(choice, pattern).unwrap_or(0).clamp(0, 1000) as i16;
        assert_eq!(scorer.score_filename(choice, pattern), expected, "{} / {}", choice, pattern);
    }
}

#[test]
fn smart_case_respects_upper_case_in_the_query() {
    let scorer = FuzzyScorer::new();
    assert!(scorer.score_filename("Report_final", "rep") > 0);
    assert_eq!(scorer.score_filename("report_final", "Rep"), 0);
}

#[test]
fn score_from_match_keeps_scores_between_zero_and_the_top_score() {
    assert_eq!(score_from_match(true, None), 1000);
    assert_eq!(score_from_match(true, Some(5)), 1000);
    assert_eq!(score_from_match(true, Some(5000)), 1000);
    assert_eq!(score_from_match(false, None), 0);
    assert_eq!(score_from_match(false, Some(0)), 0);
    assert_eq!(score_from_match(false, Some(31)), 31);
    assert_eq!(score_from_match(false, Some(999)), 999);
    assert_eq!(score_from_match(false, Some(1000)), 1000);
    assert_eq!(score_from_match(false, Some(1001)), 1000);
    assert_eq!(score_from_match(false, Some(1500)), 1000);
    assert_eq!(score_from_match(false, Some(32768)), 1000);
    assert_eq!(score_from_match(false, Some(i64::MAX)), 1000);
    assert_eq!(score_from_match(false, Some(-1)), 0);
    assert_eq!(score_from_match(false, Some(-32769)), 0);
    assert_eq!(score_from_match(false, Some(i64::MIN)), 0);
}

#[test]
fn long_runs_score_no_more_than_an_exact_match() {
    let scorer = FuzzyScorer::new();
    let stem = "a".repeat(61);
    let query = "a".repeat(60);
    let raw = SkimMatcherV2::default().smart_case().fuzzy_match(&stem, &query).unwrap();
    assert!(raw > 1000, "the matcher alone gives {}", raw);
    assert_eq!(scorer.score_filename(&stem, &query), 1000);
    assert_eq!(scorer.score_filename(&stem, &stem), 1000);
}

#[test]
fn score_does_not_depend_on_what_was_scored_before() {
    let scorer = FuzzyScorer::new();
    let first = scorer.score_filename("aabx", "aab");
    assert_eq!(first, 71);
    assert_eq!(scorer.score_filename("abcdef", "a"), 31);
    assert_eq!(scorer.score_filename("aabx", "aab"), first);
    for other in ["zzzzzzzz", "aaaaaaaaaaaaaaaa", "abcdefgh", "xaxbxcxd"] {
        let _ = scorer.score_filename(other, "a");
        let _ = scorer.score_filename(other, other);
        assert_eq!(scorer.score_filename("aabx", "aab"), first, "after {}", other);
    }
}

#[test]
fn try_score_declines_texts_beyond_the_limit() {
    let scorer = FuzzyScorer::new();
    assert_eq!(scorer.try_score("ab", "a"), Some(31));
    assert_eq!(scorer.try_score("report", "xyz"), Some(0));
    let long = "a".repeat(MAX_FUZZY_CHARS + 1);
    assert_eq!(scorer.try_score(&long, "a"), None);
    assert_eq!(scorer.try_score("a", &long), None);
    let at_limit = "é".repeat(MAX_FUZZY_CHARS);
    assert!(scorer.try_score(&at_limit, "x").is_some());
}

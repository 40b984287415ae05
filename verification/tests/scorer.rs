use rust_finder::scorer::{qualifies, score_filename, MINIMUM_SCORE, TOP_SCORE};

#[test]
fn prefix_scores_top() {
    assert_eq!(score_filename("report", "rep"), 1000);
    assert_eq!(score_filename("report", "report"), TOP_SCORE);
}

#[test]
fn no_prefix_scores_zero() {
    assert_eq!(score_filename("report", "port"), 0);
    assert_eq!(score_filename("rep", "report"), 0);
}

#[test]
fn empty_query_is_prefix_of_everything() {
    assert_eq!(score_filename("anything", ""), 1000);
    assert_eq!(score_filename("", ""), 1000);
}

#[test]
fn threshold_boundary() {
    assert_eq!(MINIMUM_SCORE, 20);
    assert!(qualifies(20));
    assert!(!qualifies(19));
    assert!(qualifies(1000));
    assert!(!qualifies(0));
    assert!(!qualifies(-5));
}

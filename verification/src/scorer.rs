//! The baseline scorer: a candidate scores by whether it begins with the query.

use vstd::prelude::*;
use crate::text::starts_with;

verus! {

/// The score of a candidate that begins with the query, and of one that equals it.
pub const TOP_SCORE: i16 = 1000;

/// The least score with which a candidate is part of a result.
pub const MINIMUM_SCORE: i16 = 20;

/// The score of the candidate `file_name` for `query`: the top score where
/// the candidate begins with the query, else 0. Every candidate begins with
/// the empty query.
pub open spec fn prefix_score(file_name: Seq<char>, query: Seq<char>) -> i16 {
    if query.is_prefix_of(file_name) {
        TOP_SCORE
    } else {
        0
    }
}

/// A score is high enough for its candidate to be part of a result.
pub open spec fn is_match(score: i16) -> bool {
    score >= MINIMUM_SCORE
}

/// Scores the candidate `file_name` for `query` by prefix.
pub fn score_filename(file_name: &str, query: &str) -> (score: i16)
    ensures
        score == prefix_score(file_name@, query@),
        0 <= score <= TOP_SCORE,
{
    if starts_with(file_name, query) {
        TOP_SCORE
    } else {
        0
    }
}

/// Tests whether a score is high enough for its candidate to be part of a
/// result: the minimum score is, one less is not.
pub fn qualifies(score: i16) -> (included: bool)
    ensures
        included == is_match(score),
        included == (score >= 20),
{
    score >= MINIMUM_SCORE
}

/// A candidate that equals the query has the top score, which is a match.
pub proof fn lemma_exact_is_match(candidate: Seq<char>)
    ensures
        prefix_score(candidate, candidate) == TOP_SCORE,
        is_match(prefix_score(candidate, candidate)),
{
    assert(candidate.subrange(0, candidate.len() as int) =~= candidate);
}

/// The empty query matches every candidate.
pub proof fn lemma_empty_query_matches(candidate: Seq<char>)
    ensures
        is_match(prefix_score(candidate, Seq::<char>::empty())),
{
    assert(candidate.subrange(0, 0) =~= Seq::<char>::empty());
}

} // verus!

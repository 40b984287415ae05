//! The fuzzy scorer: a candidate scores by how well the query's characters
//! line up with it, in order but not necessarily side by side.
//!
//! The alignment itself is the work of the skim matcher of the `fuzzy-matcher`
//! crate, in its smart-case setting. This module decides what is done with the
//! matcher's answer.

use fuzzy_matcher::skim::SkimMatcherV2;
use fuzzy_matcher::FuzzyMatcher;
use vstd::prelude::*;
use crate::scorer::{is_match, TOP_SCORE};
use crate::text::same_text;

verus! {

/// The longest candidate and the longest query, in characters, that the
/// fuzzy scorer takes. The matcher adds up its scores in 32-bit integers;
/// within this length no sum leaves their range.
pub const MAX_FUZZY_CHARS: usize = 65536;

/// What a skim matcher that was just built, in its smart-case setting and
/// with its default scores, answers for a candidate and a query: the score of
/// the best alignment, or `None` where the query's characters do not occur in
/// the candidate in order.
///
/// The matcher's scoring fills pages; it is named here and left
/// uninterpreted. A matcher that was just built has no memory of earlier
/// questions, so its answer depends on the two texts alone.
pub uninterp spec fn skim_match(choice: Seq<char>, pattern: Seq<char>) -> Option<i64>;

/// A fuzzy scorer. It keeps nothing between two scores: a matcher keeps the
/// table of its last alignment, and a score must not depend on what was
/// scored before, so each score is worked out by a matcher of its own.
#[derive(Clone, Copy, Debug)]
pub struct FuzzyScorer {}

/// Builds a matcher, `SkimMatcherV2::default().smart_case()`, and asks it
/// once with `FuzzyMatcher::fuzzy_match`.
///
/// Trusted: the answer is the one named by `skim_match`, and for an empty
/// query it is `Some(0)`, which the matcher returns before it looks at the
/// candidate. Texts longer than `MAX_FUZZY_CHARS` are kept out, so that the
/// matcher's 32-bit sums cannot overflow.
#[verifier::external_body]
fn skim_fuzzy_match(choice: &str, pattern: &str) -> (matched: Option<i64>)
    requires
        choice@.len() <= MAX_FUZZY_CHARS,
        pattern@.len() <= MAX_FUZZY_CHARS,
    ensures
        matched == skim_match(choice@, pattern@),
        pattern@.len() == 0 ==> matched == Some(0i64),
{
    SkimMatcherV2::default().smart_case().fuzzy_match(choice, pattern)
}

/// A matcher's score as a score of this library: no less than 0 and no more
/// than the top score. A matcher's score between the two stays what it is.
pub open spec fn clamped(score: i64) -> i16 {
    if score < 0 {
        0
    } else if score > TOP_SCORE {
        TOP_SCORE
    } else {
        score as i16
    }
}

/// The score of a candidate for a query, from whether the two are equal and
/// from the matcher's answer: the top score where they are equal, else the
/// matcher's score kept between 0 and the top score, else 0 where the matcher
/// found no alignment.
pub open spec fn score_of_match(exact: bool, matched: Option<i64>) -> i16 {
    if exact {
        TOP_SCORE
    } else {
        match matched {
            Some(score) => clamped(score),
            None => 0,
        }
    }
}

/// The fuzzy score of the candidate `file_name` for `query`.
pub open spec fn fuzzy_score(file_name: Seq<char>, query: Seq<char>) -> i16 {
    score_of_match(file_name == query, skim_match(file_name, query))
}

/// Both texts are short enough for the fuzzy scorer.
pub open spec fn within_limits(file_name: Seq<char>, query: Seq<char>) -> bool {
    file_name.len() <= MAX_FUZZY_CHARS && query.len() <= MAX_FUZZY_CHARS
}

/// Computes the score of a candidate from whether it equals the query and
/// from the matcher's answer. No score is below 0 or above the top score.
pub fn score_from_match(exact: bool, matched: Option<i64>) -> (score: i16)
    ensures
        score == score_of_match(exact, matched),
        0 <= score <= TOP_SCORE,
{
    if exact {
        return TOP_SCORE;
    }
    match matched {
        Some(score) => {
            if score < 0 {
                0
            } else if score > 1000 {
                TOP_SCORE
            } else {
                score as i16
            }
        },
        None => 0,
    }
}

impl FuzzyScorer {
    /// A fuzzy scorer.
    pub fn new() -> FuzzyScorer {
        FuzzyScorer {}
    }

    /// Scores the candidate `file_name` for `query`: the top score where the
    /// two are equal, and no more than that for any other candidate.
    pub fn score_filename(&self, file_name: &str, query: &str) -> (score: i16)
        requires
            within_limits(file_name@, query@),
        ensures
            score == fuzzy_score(file_name@, query@),
            0 <= score <= TOP_SCORE,
            file_name@ == query@ ==> score == TOP_SCORE,
            query@.len() == 0 && file_name@.len() > 0 ==> score == 0,
    {
        let exact = same_text(file_name, query);
        let matched = skim_fuzzy_match(file_name, query);
        score_from_match(exact, matched)
    }

    /// Scores the candidate `file_name` for `query` where both are short
    /// enough for the scorer, and answers `None` where one is not.
    pub fn try_score(&self, file_name: &str, query: &str) -> (score: Option<i16>)
        ensures
            score == (if within_limits(file_name@, query@) {
                Some(fuzzy_score(file_name@, query@))
            } else {
                None
            }),
    {
        if file_name.unicode_len() > MAX_FUZZY_CHARS || query.unicode_len() > MAX_FUZZY_CHARS {
            return None;
        }
        Some(self.score_filename(file_name, query))
    }
}

/// A candidate that equals the query has the top score, which is a match,
/// whatever the matcher answers.
pub proof fn lemma_exact_is_fuzzy_match(candidate: Seq<char>)
    ensures
        fuzzy_score(candidate, candidate) == TOP_SCORE,
        is_match(fuzzy_score(candidate, candidate)),
{
}

/// No fuzzy score is below 0 or above the top score, the score of a
/// candidate that equals the query.
pub proof fn lemma_fuzzy_score_bounded(file_name: Seq<char>, query: Seq<char>)
    ensures
        0 <= fuzzy_score(file_name, query) <= TOP_SCORE,
        fuzzy_score(file_name, query) <= fuzzy_score(query, query),
{
}

} // verus!

//! The query engine: which records of a store match a query.
//!
//! A record is matched by its stem. The stem and the query are lower-cased,
//! the scorer scores the one against the other, and the record is part of the
//! result where the score reaches the minimum. The result keeps the order of
//! the store.
//!
//! A small store is scored on the calling thread. A store of more than
//! [`PARALLEL_THRESHOLD`] records is scored on a pool of worker threads. The
//! two ways give the same result.

use rayon::iter::{IntoParallelRefIterator, ParallelIterator};
use rayon::{ThreadPool, ThreadPoolBuildError, ThreadPoolBuilder};
use vstd::prelude::*;
use crate::entry::{stem_of, EntryRecord, RecordView};
use crate::fuzzy::{fuzzy_score, within_limits, FuzzyScorer};
use crate::scorer::{
    is_match, lemma_exact_is_match, prefix_score, qualifies, score_filename, TOP_SCORE,
};
use crate::store::{lemma_position_of, position_of, with_record, IndexStore};
use crate::text::{lowercase_of, same_text, to_lowercase};

verus! {

#[verifier::external_type_specification]
#[verifier::external_body]
pub struct ExThreadPool(ThreadPool);

#[verifier::external_type_specification]
#[verifier::external_body]
pub struct ExThreadPoolBuildError(ThreadPoolBuildError);

/// A store with more records than this is scored on a pool of worker threads.
pub const PARALLEL_THRESHOLD: usize = 1000;

/// How candidates are scored.
pub enum Scorer {
    /// By prefix: a candidate matches where it begins with the query.
    Prefix,
    /// By fuzzy alignment. A candidate that equals the query has the top
    /// score; any other candidate or query that is longer than the fuzzy
    /// scorer takes does not match.
    Fuzzy(FuzzyScorer),
}

/// The way of scoring that a [`Scorer`] stands for.
pub enum ScoreMode {
    Prefix,
    Fuzzy,
}

impl View for Scorer {
    type V = ScoreMode;

    open spec fn view(&self) -> ScoreMode {
        match self {
            Scorer::Prefix => ScoreMode::Prefix,
            Scorer::Fuzzy(_) => ScoreMode::Fuzzy,
        }
    }
}

/// Why a search gave no result.
#[derive(Debug)]
pub enum SearchError {
    /// The pool of worker threads could not be built; the text says why.
    PoolUnavailable(String),
}

/// The text that stands for a record in a search: the stem of its name, in lower case.
pub open spec fn candidate_of(name: Seq<char>) -> Seq<char> {
    lowercase_of(stem_of(name))
}

/// The score of a candidate for a query that is in lower case already.
pub open spec fn candidate_score(mode: ScoreMode, candidate: Seq<char>, query: Seq<char>) -> i16 {
    match mode {
        ScoreMode::Prefix => prefix_score(candidate, query),
        ScoreMode::Fuzzy => if candidate == query {
            TOP_SCORE
        } else if within_limits(candidate, query) {
            fuzzy_score(candidate, query)
        } else {
            0
        },
    }
}

/// The score of the record called `name` for a query that is in lower case already.
pub open spec fn entry_score(mode: ScoreMode, name: Seq<char>, query: Seq<char>) -> i16 {
    candidate_score(mode, candidate_of(name), query)
}

/// The scores of `entries` for a query that is in lower case already, one per record.
pub open spec fn scores_of(mode: ScoreMode, entries: Seq<RecordView>, query: Seq<char>) -> Seq<
    i16,
> {
    Seq::new(entries.len(), |i: int| entry_score(mode, entries[i].name, query))
}

/// The record at position `i` has a score, and the score is a match.
pub open spec fn selected(scores: Seq<i16>, i: int) -> bool {
    0 <= i < scores.len() && is_match(scores[i])
}

/// The records of `entries` whose score is a match, in the order of `entries`.
/// The score of the record at position `i` is `scores[i]`; a record without a
/// score is left out.
pub open spec fn select(entries: Seq<RecordView>, scores: Seq<i16>) -> Seq<RecordView>
    decreases entries.len(),
{
    if entries.len() == 0 {
        Seq::empty()
    } else {
        let before = select(entries.drop_last(), scores);
        if selected(scores, entries.len() - 1) {
            before.push(entries.last())
        } else {
            before
        }
    }
}

/// What a search of `entries` for `query` gives: the records whose stem, in
/// lower case, scores a match against the query in lower case, in the order
/// of `entries`.
pub open spec fn search_results(mode: ScoreMode, entries: Seq<RecordView>, query: Seq<char>) -> Seq<
    RecordView,
> {
    select(entries, scores_of(mode, entries, lowercase_of(query)))
}

/// The views of a vector of records.
pub open spec fn views(records: Seq<EntryRecord>) -> Seq<RecordView> {
    records.map_values(|record: EntryRecord| record@)
}

/// A record is part of a selection exactly where it stands at a selected position.
pub proof fn lemma_select_contains(entries: Seq<RecordView>, scores: Seq<i16>, record: RecordView)
    ensures
        select(entries, scores).contains(record) <==> exists|i: int|
            0 <= i < entries.len() && #[trigger] selected(scores, i) && entries[i] == record,
    decreases entries.len(),
{
    let chosen = select(entries, scores);
    if entries.len() > 0 {
        let shorter = entries.drop_last();
        let before = select(shorter, scores);
        let last = entries.len() - 1;
        lemma_select_contains(shorter, scores, record);
        if chosen.contains(record) {
            let k = choose|k: int| 0 <= k < chosen.len() && chosen[k] == record;
            if selected(scores, last) && k == before.len() {
                assert(selected(scores, last) && entries[last] == record);
            } else {
                assert(before[k] == record);
                assert(before.contains(record));
                let i = choose|i: int|
                    0 <= i < shorter.len() && #[trigger] selected(scores, i) && shorter[i]
                        == record;
                assert(selected(scores, i) && entries[i] == record);
            }
        }
        if exists|i: int|
            0 <= i < entries.len() && #[trigger] selected(scores, i) && entries[i] == record {
            let i = choose|i: int|
                0 <= i < entries.len() && #[trigger] selected(scores, i) && entries[i] == record;
            if i == last {
                assert(chosen[before.len() as int] == record);
            } else {
                assert(selected(scores, i) && shorter[i] == record);
                assert(before.contains(record));
                let k = choose|k: int| 0 <= k < before.len() && before[k] == record;
                assert(chosen[k] == record);
            }
        }
    }
}

/// A record is part of a search result exactly where it is a record of the
/// store and its score is a match.
pub proof fn lemma_search_contains(
    mode: ScoreMode,
    entries: Seq<RecordView>,
    query: Seq<char>,
    record: RecordView,
)
    ensures
        search_results(mode, entries, query).contains(record) <==> entries.contains(record)
            && is_match(entry_score(mode, record.name, lowercase_of(query))),
{
    let scores = scores_of(mode, entries, lowercase_of(query));
    lemma_select_contains(entries, scores, record);
    if entries.contains(record) && is_match(entry_score(mode, record.name, lowercase_of(query))) {
        let i = choose|i: int| 0 <= i < entries.len() && entries[i] == record;
        assert(selected(scores, i) && entries[i] == record);
    }
}

/// A record's own stem finds it: whoever searches for the stem of a record
/// that was just inserted gets that record among the results, with either scorer.
pub proof fn lemma_stem_finds_record(mode: ScoreMode, entries: Seq<RecordView>, record: RecordView)
    ensures
        search_results(mode, with_record(entries, record), stem_of(record.name)).contains(record),
{
    let after = with_record(entries, record);
    let candidate = candidate_of(record.name);
    lemma_position_of(entries, record.name);
    match position_of(entries, record.name) {
        Some(i) => {
            assert(after[i] == record);
        },
        None => {
            assert(after[entries.len() as int] == record);
        },
    }
    assert(after.contains(record));
    lemma_exact_is_match(candidate);
    lemma_search_contains(mode, after, stem_of(record.name), record);
}

/// No score is below 0 or above the top score, and a candidate that equals
/// the query has the top score, with either scorer.
pub proof fn lemma_score_bounded(mode: ScoreMode, candidate: Seq<char>, query: Seq<char>)
    ensures
        0 <= candidate_score(mode, candidate, query) <= TOP_SCORE,
        candidate_score(mode, query, query) == TOP_SCORE,
{
    lemma_exact_is_match(query);
}

/// The number of processors of this machine, from `num_cpus::get`.
///
/// Trusted: the number differs from machine to machine; it is at least 1.
#[verifier::external_body]
fn available_cpus() -> (cpus: usize)
    ensures
        cpus >= 1,
{
    num_cpus::get()
}

/// Builds a pool of `workers` threads with `rayon::ThreadPoolBuilder`; with 0
/// workers the pool picks their number itself.
///
/// Trusted: whether the pool can be built is up to the machine; nothing is
/// claimed of the outcome.
#[verifier::external_body]
fn build_pool(workers: usize) -> Result<ThreadPool, ThreadPoolBuildError> {
    ThreadPoolBuilder::new().num_threads(workers).build()
}

/// Says in words why a pool could not be built.
///
/// Trusted: the text is the error's own; nothing is claimed of it.
#[verifier::external_body]
fn pool_error_text(error: &ThreadPoolBuildError) -> String {
    format!("Failed to build Rayon thread pool: {}", error)
}

/// Scores every record on the threads of `pool`: `ThreadPool::install` around
/// a parallel `map` over the records, collected into a vector.
///
/// Trusted: the parallel map keeps the order of the records, so that the
/// score at each position is what `Scorer::score_entry` returns for the
/// record at that position.
#[verifier::external_body]
fn score_all_in_pool(
    pool: &ThreadPool,
    scorer: &Scorer,
    records: &Vec<EntryRecord>,
    query: &str,
) -> (scores: Vec<i16>)
    ensures
        scores@ == scores_of(scorer@, views(records@), query@),
{
    pool.install(|| records.par_iter().map(|record| scorer.score_entry(record, query)).collect())
}

impl Scorer {
    /// Scores a candidate for a query: the top score where the two are
    /// equal, and no more than that for any other candidate.
    pub fn score(&self, candidate: &str, query: &str) -> (score: i16)
        ensures
            score == candidate_score(self@, candidate@, query@),
            0 <= score <= TOP_SCORE,
            candidate@ == query@ ==> score == TOP_SCORE,
    {
        proof {
            lemma_score_bounded(self@, candidate@, query@);
        }
        match self {
            Scorer::Prefix => score_filename(candidate, query),
            Scorer::Fuzzy(fuzzy) => if same_text(candidate, query) {
                TOP_SCORE
            } else {
                match fuzzy.try_score(candidate, query) {
                    Some(score) => score,
                    None => 0,
                }
            },
        }
    }

    /// Scores a record for a query that is in lower case already.
    pub fn score_entry(&self, record: &EntryRecord, query: &str) -> (score: i16)
        ensures
            score == entry_score(self@, record@.name, query@),
            0 <= score <= TOP_SCORE,
    {
        let stem = record.stem();
        let candidate = to_lowercase(stem.as_str());
        self.score(candidate.as_str(), query)
    }
}

/// Scores every record on the calling thread.
pub(crate) fn score_all(scorer: &Scorer, records: &Vec<EntryRecord>, query: &str) -> (scores: Vec<i16>)
    ensures
        scores@ == scores_of(scorer@, views(records@), query@),
{
    let mut scores: Vec<i16> = Vec::new();
    let mut i: usize = 0;
    while i < records.len()
        invariant
            i <= records.len(),
            scores@.len() == i,
            forall|j: int|
                0 <= j < i ==> scores@[j] == entry_score(scorer@, views(records@)[j].name, query@),
        decreases records.len() - i,
    {
        scores.push(scorer.score_entry(&records[i], query));
        i += 1;
    }
    assert(scores@ =~= scores_of(scorer@, views(records@), query@));
    scores
}

/// Picks the records whose score is a match: the record at position `i` is
/// kept where `scores[i]` is at least the minimum score. The records keep
/// their order, and a record without a score is left out.
pub fn select_matches(records: &Vec<EntryRecord>, scores: &Vec<i16>) -> (matches: Vec<EntryRecord>)
    ensures
        views(matches@) == select(views(records@), scores@),
{
    let mut matches: Vec<EntryRecord> = Vec::new();
    let mut i: usize = 0;
    assert(views(records@).take(0) =~= Seq::<RecordView>::empty());
    while i < records.len()
        invariant
            i <= records.len(),
            views(matches@) == select(views(records@).take(i as int), scores@),
        decreases records.len() - i,
    {
        let ghost before = views(matches@);
        proof {
            let upto = views(records@).take(i + 1);
            assert(upto.drop_last() =~= views(records@).take(i as int));
            assert(upto.last() == records@[i as int]@);
        }
        if i < scores.len() && qualifies(scores[i]) {
            matches.push(records[i].clone());
            assert(views(matches@) =~= before.push(records@[i as int]@));
        }
        i += 1;
    }
    assert(views(records@).take(i as int) =~= views(records@));
    matches
}

/// The records of a store as views.
proof fn lemma_store_views(store: &IndexStore, records: &Vec<EntryRecord>)
    requires
        records@.len() == store@.len(),
        forall|i: int| 0 <= i < records@.len() ==> (#[trigger] records@[i])@ == store@[i],
    ensures
        views(records@) == store@,
{
    assert(views(records@) =~= store@);
}

/// Searches `store` for `query` on the calling thread.
pub fn search_sequential(store: &IndexStore, scorer: &Scorer, query: &str) -> (matches: Vec<
    EntryRecord,
>)
    ensures
        views(matches@) == search_results(scorer@, store@, query@),
{
    let records = store.records();
    proof {
        lemma_store_views(store, records);
    }
    let query_lower = to_lowercase(query);
    let scores = score_all(scorer, records, query_lower.as_str());
    select_matches(records, &scores)
}

/// Searches `store` for `query` on the threads of `pool`, a pool that was
/// built before and may serve many searches. The result is that of a search
/// on the calling thread.
pub fn search_in_pool(store: &IndexStore, scorer: &Scorer, query: &str, pool: &ThreadPool) -> (matches:
    Vec<EntryRecord>)
    ensures
        views(matches@) == search_results(scorer@, store@, query@),
{
    let records = store.records();
    proof {
        lemma_store_views(store, records);
    }
    let query_lower = to_lowercase(query);
    let scores = score_all_in_pool(pool, scorer, records, query_lower.as_str());
    select_matches(records, &scores)
}

/// Searches `store` for `query` on a pool of worker threads, given how
/// building the pool went: with the pool the search succeeds, and its result
/// is that of a search on the calling thread; without it the search fails,
/// and the error says why the pool could not be built.
pub fn search_with_pool(
    store: &IndexStore,
    scorer: &Scorer,
    query: &str,
    built: Result<ThreadPool, ThreadPoolBuildError>,
) -> (found: Result<Vec<EntryRecord>, SearchError>)
    ensures
        built is Ok <==> found is Ok,
        found matches Ok(matches) ==> views(matches@) == search_results(scorer@, store@, query@),
{
    match built {
        Ok(pool) => Ok(search_in_pool(store, scorer, query, &pool)),
        Err(error) => Err(SearchError::PoolUnavailable(pool_error_text(&error))),
    }
}

/// Searches `store` for `query` on a pool of `workers` threads; with 0
/// workers the pool picks their number itself. Whether the pool can be built
/// is up to the machine; where it can, the result is that of a search on the
/// calling thread (see [`search_with_pool`]).
pub fn search_parallel(store: &IndexStore, scorer: &Scorer, query: &str, workers: usize) -> (found:
    Result<Vec<EntryRecord>, SearchError>)
    ensures
        found matches Ok(matches) ==> views(matches@) == search_results(scorer@, store@, query@),
{
    search_with_pool(store, scorer, query, build_pool(workers))
}

/// Whether a store of `len` records is searched on a pool of worker threads.
pub open spec fn searched_in_parallel(len: nat) -> bool {
    len > PARALLEL_THRESHOLD
}

/// Searches `store` for `query`, with `workers` threads where the store is
/// large enough to be searched in parallel. A store of at most
/// [`PARALLEL_THRESHOLD`] records is searched on the calling thread, and that
/// search does not fail.
pub fn search_with_workers(
    store: &IndexStore,
    scorer: &Scorer,
    query: &str,
    workers: usize,
) -> (found: Result<Vec<EntryRecord>, SearchError>)
    ensures
        found matches Ok(matches) ==> views(matches@) == search_results(scorer@, store@, query@),
        !searched_in_parallel(store@.len()) ==> found is Ok,
{
    if store.len() > PARALLEL_THRESHOLD {
        search_parallel(store, scorer, query, workers)
    } else {
        Ok(search_sequential(store, scorer, query))
    }
}

/// Searches `store` for `query`. A large store is searched with one worker
/// thread per processor of the machine.
pub fn search(store: &IndexStore, scorer: &Scorer, query: &str) -> (found: Result<
    Vec<EntryRecord>,
    SearchError,
>)
    ensures
        found matches Ok(matches) ==> views(matches@) == search_results(scorer@, store@, query@),
        !searched_in_parallel(store@.len()) ==> found is Ok,
{
    if store.len() > PARALLEL_THRESHOLD {
        let workers = available_cpus();
        search_parallel(store, scorer, query, workers)
    } else {
        Ok(search_sequential(store, scorer, query))
    }
}

} // verus!

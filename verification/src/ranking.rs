//! Ranking: the matches of a search with the best first.
//!
//! A match ranks before another where its score is higher, and among equal
//! scores where its name comes first in the order of the dictionary, taken
//! character by character.

use vstd::prelude::*;
use vstd::seq_lib::{lemma_multiset_commutative, to_multiset_build};
use vstd::std_specs::iter::IteratorSpec;
use crate::entry::{EntryRecord, RecordView};
use crate::scorer::qualifies;
use crate::search::{score_all, scores_of, select, selected, views, ScoreMode, Scorer};
use crate::store::IndexStore;
use crate::text::{lowercase_of, to_lowercase};

verus! {

/// The text `a` comes before the text `b`: at the first place where the two
/// differ `a` has the lesser character, or `a` ends there and `b` goes on.
pub open spec fn text_before(a: Seq<char>, b: Seq<char>) -> bool
    decreases a.len(),
{
    if b.len() == 0 {
        false
    } else if a.len() == 0 {
        true
    } else if a[0] != b[0] {
        a[0] < b[0]
    } else {
        text_before(a.drop_first(), b.drop_first())
    }
}

/// No text comes before itself.
pub proof fn lemma_text_before_irreflexive(a: Seq<char>)
    ensures
        !text_before(a, a),
    decreases a.len(),
{
    if a.len() > 0 {
        lemma_text_before_irreflexive(a.drop_first());
    }
}

/// Of two different texts one comes before the other.
pub proof fn lemma_text_before_total(a: Seq<char>, b: Seq<char>)
    requires
        a != b,
    ensures
        text_before(a, b) || text_before(b, a),
    decreases a.len(),
{
    if a.len() == 0 || b.len() == 0 {
        if a.len() == 0 && b.len() == 0 {
            assert(a =~= b);
        }
    } else if a[0] == b[0] {
        if a.drop_first() == b.drop_first() {
            assert(a =~= seq![a[0]] + a.drop_first());
            assert(b =~= seq![b[0]] + b.drop_first());
        }
        lemma_text_before_total(a.drop_first(), b.drop_first());
    }
}

/// The order of texts is transitive.
pub proof fn lemma_text_before_transitive(a: Seq<char>, b: Seq<char>, c: Seq<char>)
    requires
        text_before(a, b),
        text_before(b, c),
    ensures
        text_before(a, c),
    decreases a.len(),
{
    if a.len() > 0 && a[0] == b[0] && b[0] == c[0] {
        lemma_text_before_transitive(a.drop_first(), b.drop_first(), c.drop_first());
    }
}

/// A match together with its score.
#[derive(Debug)]
pub struct ScoredMatch {
    pub record: EntryRecord,
    pub score: i16,
}

/// The mathematical content of a [`ScoredMatch`].
pub struct ScoredView {
    pub record: RecordView,
    pub score: i16,
}

impl View for ScoredMatch {
    type V = ScoredView;

    open spec fn view(&self) -> ScoredView {
        ScoredView { record: self.record@, score: self.score }
    }
}

/// The match `a` ranks before the match `b`: it has the higher score, or the
/// same score and the name that comes first.
pub open spec fn outranks(a: ScoredView, b: ScoredView) -> bool {
    a.score > b.score || (a.score == b.score && text_before(a.record.name, b.record.name))
}

/// The matches stand in the order of their rank: none ranks before one that
/// stands before it.
pub open spec fn in_rank_order(matches: Seq<ScoredView>) -> bool {
    forall|i: int, j: int|
        0 <= i < j < matches.len() ==> !outranks(#[trigger] matches[j], #[trigger] matches[i])
}

/// Where `a` ranks before `b`, `b` does not rank before `a`.
pub proof fn lemma_outranks_asymmetric(a: ScoredView, b: ScoredView)
    requires
        outranks(a, b),
    ensures
        !outranks(b, a),
{
    if a.score == b.score && text_before(b.record.name, a.record.name) {
        lemma_text_before_transitive(a.record.name, b.record.name, a.record.name);
        lemma_text_before_irreflexive(a.record.name);
    }
}

/// Where `b` does not rank before `a` and `c` does not rank before `b`, `c`
/// does not rank before `a`.
pub proof fn lemma_rank_order_transitive(a: ScoredView, b: ScoredView, c: ScoredView)
    requires
        !outranks(b, a),
        !outranks(c, b),
    ensures
        !outranks(c, a),
{
    if a.score == b.score && b.score == c.score && text_before(c.record.name, a.record.name) {
        let (x, y, z) = (a.record.name, b.record.name, c.record.name);
        if y == x {
        } else if z == y {
        } else {
            lemma_text_before_total(x, y);
            lemma_text_before_total(y, z);
            lemma_text_before_transitive(x, y, z);
            lemma_text_before_transitive(x, z, x);
            lemma_text_before_irreflexive(x);
        }
    }
}

/// The matches among `entries` with their scores, in the order of `entries`:
/// the record at position `i` is a match where `scores[i]` is one.
pub open spec fn scored_select(entries: Seq<RecordView>, scores: Seq<i16>) -> Seq<ScoredView>
    decreases entries.len(),
{
    if entries.len() == 0 {
        Seq::empty()
    } else {
        let before = scored_select(entries.drop_last(), scores);
        if selected(scores, entries.len() - 1) {
            before.push(ScoredView { record: entries.last(), score: scores[entries.len() - 1] })
        } else {
            before
        }
    }
}

/// The views of a vector of scored matches.
pub open spec fn scored_views(matches: Seq<ScoredMatch>) -> Seq<ScoredView> {
    matches.map_values(|scored: ScoredMatch| scored@)
}

/// `ranked` holds the matches of `matches`, each as often as `matches` does,
/// with the best first.
pub open spec fn is_ranking_of(ranked: Seq<ScoredView>, matches: Seq<ScoredView>) -> bool {
    in_rank_order(ranked) && ranked.to_multiset() == matches.to_multiset()
}

/// Every position of `order` is one of a record that has a score.
spec fn positions_valid(order: Seq<usize>, entries: Seq<RecordView>, scores: Seq<i16>) -> bool {
    forall|k: int|
        0 <= k < order.len() ==> (#[trigger] order[k]) < entries.len() && order[k] < scores.len()
}

/// The scored matches at the positions `order`.
spec fn matches_at(order: Seq<usize>, entries: Seq<RecordView>, scores: Seq<i16>) -> Seq<
    ScoredView,
> {
    Seq::new(
        order.len(),
        |k: int| ScoredView { record: entries[order[k] as int], score: scores[order[k] as int] },
    )
}

/// Tests whether the text `a` comes before the text `b`.
pub fn comes_before(a: &str, b: &str) -> (before: bool)
    ensures
        before == text_before(a@, b@),
{
    broadcast use vstd::string::group_string_axioms;

    let mut rest_a = a.chars();
    let mut rest_b = b.chars();
    let ghost mut n: int = 0;
    assert(a@.skip(0) =~= a@ && b@.skip(0) =~= b@);
    loop
        invariant
            0 <= n <= a@.len(),
            n <= b@.len(),
            rest_a.remaining() == a@.skip(n),
            rest_b.remaining() == b@.skip(n),
            text_before(a@, b@) == text_before(a@.skip(n), b@.skip(n)),
        decreases a@.len() - n,
    {
        let from_b = match rest_b.next() {
            Some(from_b) => from_b,
            None => {
                return false;
            },
        };
        match rest_a.next() {
            None => {
                return true;
            },
            Some(from_a) => {
                if from_a != from_b {
                    return from_a < from_b;
                }
                proof {
                    assert(a@.skip(n).drop_first() =~= a@.skip(n + 1));
                    assert(b@.skip(n).drop_first() =~= b@.skip(n + 1));
                    n = n + 1;
                }
            },
        }
    }
}

/// Tests whether the match at position `a` ranks before the one at position `b`.
fn outranks_at(records: &Vec<EntryRecord>, scores: &Vec<i16>, a: usize, b: usize) -> (before: bool)
    requires
        a < records@.len(),
        a < scores@.len(),
        b < records@.len(),
        b < scores@.len(),
    ensures
        before == outranks(
            ScoredView { record: views(records@)[a as int], score: scores@[a as int] },
            ScoredView { record: views(records@)[b as int], score: scores@[b as int] },
        ),
{
    if scores[a] != scores[b] {
        scores[a] > scores[b]
    } else {
        comes_before(records[a].name.as_str(), records[b].name.as_str())
    }
}

/// The positions of the matches, in the order of the records.
fn match_positions(records: &Vec<EntryRecord>, scores: &Vec<i16>) -> (positions: Vec<usize>)
    ensures
        positions_valid(positions@, views(records@), scores@),
        matches_at(positions@, views(records@), scores@) == scored_select(
            views(records@),
            scores@,
        ),
{
    let ghost entries = views(records@);
    let mut positions: Vec<usize> = Vec::new();
    let mut i: usize = 0;
    assert(entries.take(0) =~= Seq::<RecordView>::empty());
    assert(matches_at(positions@, entries, scores@) =~= Seq::<ScoredView>::empty());
    while i < records.len()
        invariant
            i <= records.len(),
            entries == views(records@),
            positions_valid(positions@, entries, scores@),
            forall|k: int| 0 <= k < positions@.len() ==> (#[trigger] positions@[k]) < i,
            matches_at(positions@, entries, scores@) == scored_select(
                entries.take(i as int),
                scores@,
            ),
        decreases records.len() - i,
    {
        let ghost before = matches_at(positions@, entries, scores@);
        proof {
            let upto = entries.take(i + 1);
            assert(upto.drop_last() =~= entries.take(i as int));
            assert(upto.last() == entries[i as int]);
        }
        if i < scores.len() && qualifies(scores[i]) {
            positions.push(i);
            assert(matches_at(positions@, entries, scores@) =~= before.push(
                ScoredView { record: entries[i as int], score: scores@[i as int] },
            ));
        } else {
            assert(matches_at(positions@, entries, scores@) =~= before);
        }
        i += 1;
    }
    assert(entries.take(i as int) =~= entries);
    positions
}

/// Merges two runs of positions, each in rank order, into one.
fn merge_runs(records: &Vec<EntryRecord>, scores: &Vec<i16>, left: &Vec<usize>, right: &Vec<usize>)
    -> (merged: Vec<usize>)
    requires
        positions_valid(left@, views(records@), scores@),
        positions_valid(right@, views(records@), scores@),
        in_rank_order(matches_at(left@, views(records@), scores@)),
        in_rank_order(matches_at(right@, views(records@), scores@)),
    ensures
        positions_valid(merged@, views(records@), scores@),
        in_rank_order(matches_at(merged@, views(records@), scores@)),
        matches_at(merged@, views(records@), scores@).to_multiset() == matches_at(
            left@,
            views(records@),
            scores@,
        ).to_multiset().add(matches_at(right@, views(records@), scores@).to_multiset()),
{
    broadcast use vstd::multiset::group_multiset_axioms;

    let ghost entries = views(records@);
    let ghost from_left = matches_at(left@, entries, scores@);
    let ghost from_right = matches_at(right@, entries, scores@);
    let mut merged: Vec<usize> = Vec::new();
    let mut i: usize = 0;
    let mut j: usize = 0;
    assert(from_left.take(0) =~= Seq::<ScoredView>::empty());
    assert(from_right.take(0) =~= Seq::<ScoredView>::empty());
    assert(matches_at(merged@, entries, scores@) =~= Seq::<ScoredView>::empty());
    proof {
        let none = Seq::<ScoredView>::empty();
        lemma_multiset_commutative(none, none);
        assert(none + none =~= none);
    }
    while i < left.len() || j < right.len()
        invariant
            i <= left@.len(),
            j <= right@.len(),
            entries == views(records@),
            from_left == matches_at(left@, entries, scores@),
            from_right == matches_at(right@, entries, scores@),
            positions_valid(left@, entries, scores@),
            positions_valid(right@, entries, scores@),
            positions_valid(merged@, entries, scores@),
            in_rank_order(from_left),
            in_rank_order(from_right),
            in_rank_order(matches_at(merged@, entries, scores@)),
            forall|k: int, p: int|
                0 <= k < merged@.len() && i <= p < left@.len() ==> !outranks(
                    #[trigger] from_left[p],
                    #[trigger] matches_at(merged@, entries, scores@)[k],
                ),
            forall|k: int, q: int|
                0 <= k < merged@.len() && j <= q < right@.len() ==> !outranks(
                    #[trigger] from_right[q],
                    #[trigger] matches_at(merged@, entries, scores@)[k],
                ),
            matches_at(merged@, entries, scores@).to_multiset() == from_left.take(
                i as int,
            ).to_multiset().add(from_right.take(j as int).to_multiset()),
        decreases left@.len() - i + right@.len() - j,
    {
        let ghost before = matches_at(merged@, entries, scores@);
        let take_left = if i >= left.len() {
            false
        } else if j >= right.len() {
            true
        } else {
            !outranks_at(records, scores, right[j], left[i])
        };
        if take_left {
            let ghost taken = from_left[i as int];
            proof {
                assert(from_left.take(i + 1) =~= from_left.take(i as int).push(taken));
                assert forall|q: int| j <= q < right@.len() implies !outranks(
                    #[trigger] from_right[q],
                    taken,
                ) by {
                    if q > j {
                        lemma_rank_order_transitive(taken, from_right[j as int], from_right[q]);
                    }
                }
            }
            merged.push(left[i]);
            i += 1;
            assert(matches_at(merged@, entries, scores@) =~= before.push(taken));
            proof {
                to_multiset_build(before, taken);
                to_multiset_build(from_left.take(i - 1), taken);
                assert(before.push(taken).to_multiset() =~= from_left.take(
                    i as int,
                ).to_multiset().add(from_right.take(j as int).to_multiset()));
            }
        } else {
            let ghost taken = from_right[j as int];
            proof {
                assert(from_right.take(j + 1) =~= from_right.take(j as int).push(taken));
                assert forall|p: int| i <= p < left@.len() implies !outranks(
                    #[trigger] from_left[p],
                    taken,
                ) by {
                    lemma_outranks_asymmetric(taken, from_left[i as int]);
                    if p > i {
                        lemma_rank_order_transitive(taken, from_left[i as int], from_left[p]);
                    }
                }
            }
            merged.push(right[j]);
            j += 1;
            assert(matches_at(merged@, entries, scores@) =~= before.push(taken));
            proof {
                to_multiset_build(before, taken);
                to_multiset_build(from_right.take(j - 1), taken);
                assert(before.push(taken).to_multiset() =~= from_left.take(
                    i as int,
                ).to_multiset().add(from_right.take(j as int).to_multiset()));
            }
        }
    }
    assert(from_left.take(i as int) =~= from_left);
    assert(from_right.take(j as int) =~= from_right);
    merged
}

/// The positions `order[from..to]` in rank order.
fn sort_run(
    records: &Vec<EntryRecord>,
    scores: &Vec<i16>,
    order: &Vec<usize>,
    from: usize,
    to: usize,
) -> (sorted: Vec<usize>)
    requires
        from <= to <= order@.len(),
        positions_valid(order@, views(records@), scores@),
    ensures
        positions_valid(sorted@, views(records@), scores@),
        in_rank_order(matches_at(sorted@, views(records@), scores@)),
        matches_at(sorted@, views(records@), scores@).to_multiset() == matches_at(
            order@.subrange(from as int, to as int),
            views(records@),
            scores@,
        ).to_multiset(),
    decreases to - from,
{
    let ghost entries = views(records@);
    if to - from <= 1 {
        let mut sorted: Vec<usize> = Vec::new();
        if to - from == 1 {
            sorted.push(order[from]);
        }
        assert(sorted@ =~= order@.subrange(from as int, to as int));
        return sorted;
    }
    let middle = from + (to - from) / 2;
    let left = sort_run(records, scores, order, from, middle);
    let right = sort_run(records, scores, order, middle, to);
    proof {
        let whole = matches_at(order@.subrange(from as int, to as int), entries, scores@);
        let first = matches_at(order@.subrange(from as int, middle as int), entries, scores@);
        let second = matches_at(order@.subrange(middle as int, to as int), entries, scores@);
        assert(whole =~= first + second);
        lemma_multiset_commutative(first, second);
    }
    merge_runs(records, scores, &left, &right)
}

/// Picks the records whose score is a match, as `select_matches` does, and
/// ranks them: the higher score first, and among equal scores the name that
/// comes first.
pub fn rank_matches(records: &Vec<EntryRecord>, scores: &Vec<i16>) -> (ranked: Vec<ScoredMatch>)
    ensures
        is_ranking_of(scored_views(ranked@), scored_select(views(records@), scores@)),
{
    let ghost entries = views(records@);
    let positions = match_positions(records, scores);
    assert(positions@.subrange(0, positions@.len() as int) =~= positions@);
    let order = sort_run(records, scores, &positions, 0, positions.len());
    let mut ranked: Vec<ScoredMatch> = Vec::new();
    let mut k: usize = 0;
    while k < order.len()
        invariant
            k <= order@.len(),
            entries == views(records@),
            positions_valid(order@, entries, scores@),
            ranked@.len() == k,
            forall|m: int|
                0 <= m < k ==> (#[trigger] ranked@[m])@ == matches_at(order@, entries, scores@)[m],
        decreases order@.len() - k,
    {
        let position = order[k];
        ranked.push(ScoredMatch { record: records[position].clone(), score: scores[position] });
        k += 1;
    }
    assert(scored_views(ranked@) =~= matches_at(order@, entries, scores@));
    ranked
}

/// What a ranked search of `entries` for `query` ranks: the matches that a
/// search gives, each with its score.
pub open spec fn scored_results(mode: ScoreMode, entries: Seq<RecordView>, query: Seq<char>) -> Seq<
    ScoredView,
> {
    scored_select(entries, scores_of(mode, entries, lowercase_of(query)))
}

/// The records of scored matches are the matches of a search.
pub proof fn lemma_scored_select_records(entries: Seq<RecordView>, scores: Seq<i16>)
    ensures
        scored_select(entries, scores).map_values(|scored: ScoredView| scored.record)
            == select(entries, scores),
    decreases entries.len(),
{
    let records = scored_select(entries, scores).map_values(|scored: ScoredView| scored.record);
    if entries.len() > 0 {
        lemma_scored_select_records(entries.drop_last(), scores);
    }
    assert(records =~= select(entries, scores));
}

/// Searches `store` for `query` and ranks the matches: the higher score
/// first, and among equal scores the name that comes first. The store is
/// scored on the calling thread.
pub fn search_ranked(store: &IndexStore, scorer: &Scorer, query: &str) -> (ranked: Vec<
    ScoredMatch,
>)
    ensures
        is_ranking_of(scored_views(ranked@), scored_results(scorer@, store@, query@)),
{
    let records = store.records();
    assert(views(records@) =~= store@);
    let query_lower = to_lowercase(query);
    let scores = score_all(scorer, records, query_lower.as_str());
    rank_matches(records, &scores)
}

} // verus!

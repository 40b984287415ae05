//! The whole crawl: what the crawler files when it is driven to the end over
//! a tree that does not change.
//!
//! The tree is given as a function from the path of a directory to the
//! listing that reading the directory gives. Driving the crawler means asking
//! it for the next directory and handing it that directory's listing, again
//! and again. The laws of this module say what the store holds at the end.

use vstd::prelude::*;
use crate::crawler::{
    lemma_absorb_entries_sound, lemma_initial_sound, lemma_listing_sound, lemma_next_sound,
    record_of, CrawlPlan, CrawlerView, ListingView, PendingView, RawEntryView,
};
use crate::entry::RecordView;
use crate::paths::{
    are_base_names, child_path, descend, is_base_name, lemma_child_path_injective,
    lemma_descend_below, lemma_descend_injective,
};
use crate::store::{
    as_map, distinct_names, lemma_position_of, lemma_with_record_as_map,
    lemma_with_record_distinct, position_of,
};

verus! {

/// The entry was read with its name and its metadata.
pub open spec fn readable(entry: RawEntryView) -> bool {
    entry.name is Some && entry.metadata is Ok
}

/// The state of a crawl after at most `steps` directories were read from the
/// tree `read`, starting from `state`. A crawl that is over stays as it is.
pub open spec fn crawl(
    state: CrawlerView,
    read: spec_fn(Seq<char>) -> ListingView,
    steps: nat,
) -> CrawlerView
    decreases steps,
{
    if steps == 0 {
        state
    } else {
        let asked = state.after_next();
        match asked.awaiting {
            None => asked,
            Some(dir) => crawl(asked.after_listing(read(dir.path)), read, (steps - 1) as nat),
        }
    }
}

/// The directory at the end of the trail `names`, and its depth.
pub open spec fn trail_end(plan: CrawlPlan, names: Seq<Seq<char>>) -> PendingView {
    PendingView { path: descend(plan.root, names), depth: names.len() }
}

/// The crawl follows the trail `names` in the tree `read`: the root is not
/// skipped, and each name of the trail is an entry of the directory before it
/// into which the crawl descends.
pub open spec fn follows(
    plan: CrawlPlan,
    read: spec_fn(Seq<char>) -> ListingView,
    names: Seq<Seq<char>>,
) -> bool
    decreases names.len(),
{
    if names.len() == 0 {
        !plan.skips(plan.root)
    } else {
        let parent = trail_end(plan, names.drop_last());
        &&& follows(plan, read, names.drop_last())
        &&& exists|j: int|
            0 <= j < read(parent.path).entries.len() && (#[trigger] read(
                parent.path,
            ).entries[j]).name == Some(names.last()) && plan.descends_into(
                parent,
                read(parent.path).entries[j],
            )
    }
}

/// A crawl stays sound however far it is driven, and keeps its plan.
pub proof fn lemma_crawl_sound(
    state: CrawlerView,
    read: spec_fn(Seq<char>) -> ListingView,
    steps: nat,
)
    requires
        state.sound(),
    ensures
        crawl(state, read, steps).sound(),
        crawl(state, read, steps).plan == state.plan,
    decreases steps,
{
    if steps > 0 {
        let asked = state.after_next();
        lemma_next_sound(state);
        if let Some(dir) = asked.awaiting {
            let listing = read(dir.path);
            lemma_listing_sound(asked, listing);
            lemma_absorb_entries_sound(
                CrawlerView { awaiting: None, ..asked },
                dir,
                listing.entries,
            );
            lemma_crawl_sound(asked.after_listing(listing), read, (steps - 1) as nat);
        }
    }
}

/// Every record of a crawl that began at the root lies under an open trail:
/// at most `max_depth` directories below the root, with no directory on the
/// way down to it, the root included, bearing a skipped name.
pub proof fn lemma_crawl_within_plan(
    plan: CrawlPlan,
    read: spec_fn(Seq<char>) -> ListingView,
    steps: nat,
    i: int,
)
    requires
        0 <= i < crawl(CrawlerView::initial(plan), read, steps).store.len(),
    ensures
        plan.lies_under(crawl(CrawlerView::initial(plan), read, steps).store[i]),
{
    lemma_initial_sound(plan);
    lemma_crawl_sound(CrawlerView::initial(plan), read, steps);
}

/// A crawl that is over does not change when it is driven further.
pub proof fn lemma_finished_crawl_stays(
    state: CrawlerView,
    read: spec_fn(Seq<char>) -> ListingView,
    steps: nat,
    more: nat,
)
    requires
        crawl(state, read, steps).finished(),
    ensures
        crawl(state, read, steps + more) == crawl(state, read, steps),
    decreases steps,
{
    let asked = state.after_next();
    if steps == 0 {
        if more > 0 {
            assert(asked == state);
        }
    } else {
        if let Some(dir) = asked.awaiting {
            lemma_finished_crawl_stays(
                asked.after_listing(read(dir.path)),
                read,
                (steps - 1) as nat,
                more,
            );
        }
    }
}

/// Crawling the same tree twice gives the same store: two crawls from the
/// same state over the same tree, each driven until it is over, end in the
/// same state, however many steps each was given.
pub proof fn lemma_crawl_reproducible(
    state: CrawlerView,
    read: spec_fn(Seq<char>) -> ListingView,
    first: nat,
    second: nat,
)
    requires
        crawl(state, read, first).finished(),
        crawl(state, read, second).finished(),
    ensures
        crawl(state, read, first) == crawl(state, read, second),
{
    if first <= second {
        lemma_finished_crawl_stays(state, read, first, (second - first) as nat);
    } else {
        lemma_finished_crawl_stays(state, read, second, (first - second) as nat);
    }
}

/// The paths of the directories that taking in the entries `entries` of the
/// directory `dir` adds to the frontier, in the order of the entries.
pub open spec fn queued_paths(plan: CrawlPlan, dir: PendingView, entries: Seq<RawEntryView>) -> Seq<
    Seq<char>,
>
    decreases entries.len(),
{
    if entries.len() == 0 {
        Seq::empty()
    } else {
        let before = queued_paths(plan, dir, entries.drop_last());
        if plan.descends_into(dir, entries.last()) {
            before.push(child_path(dir.path, entries.last().name.unwrap()))
        } else {
            before
        }
    }
}

/// The directories at `paths`, all of them at the depth `depth`.
pub open spec fn at_depth(paths: Seq<Seq<char>>, depth: nat) -> Seq<PendingView> {
    Seq::new(paths.len(), |i: int| PendingView { path: paths[i], depth })
}

/// How many directories the crawl reads for `dir`: the directory itself and,
/// where it is not at the depth bound yet, every directory that the crawl
/// reaches through it.
pub open spec fn reads_below(
    plan: CrawlPlan,
    read: spec_fn(Seq<char>) -> ListingView,
    dir: PendingView,
) -> nat
    decreases plan.max_depth - dir.depth, 0int,
{
    if dir.depth >= plan.max_depth {
        1
    } else {
        1 + reads_among(
            plan,
            read,
            queued_paths(plan, dir, read(dir.path).entries),
            dir.depth + 1,
        )
    }
}

/// How many directories the crawl reads for the directories at `paths`, all
/// of them at the depth `depth`.
pub open spec fn reads_among(
    plan: CrawlPlan,
    read: spec_fn(Seq<char>) -> ListingView,
    paths: Seq<Seq<char>>,
    depth: nat,
) -> nat
    decreases plan.max_depth - depth, paths.len() + 1,
{
    if paths.len() == 0 {
        0
    } else {
        reads_among(plan, read, paths.drop_last(), depth) + reads_below(
            plan,
            read,
            PendingView { path: paths.last(), depth },
        )
    }
}

/// How many directories the crawl has yet to read when `frontier` waits.
pub open spec fn reads_left(
    plan: CrawlPlan,
    read: spec_fn(Seq<char>) -> ListingView,
    frontier: Seq<PendingView>,
) -> nat
    decreases frontier.len(),
{
    if frontier.len() == 0 {
        0
    } else {
        reads_left(plan, read, frontier.drop_last()) + reads_below(plan, read, frontier.last())
    }
}

/// How many directories a crawl of the tree `read` reads from beginning to end.
pub open spec fn reads_needed(plan: CrawlPlan, read: spec_fn(Seq<char>) -> ListingView) -> nat {
    reads_left(plan, read, CrawlerView::initial(plan).frontier)
}

/// The reads that two frontiers need are those that the two need together.
proof fn lemma_reads_left_concat(
    plan: CrawlPlan,
    read: spec_fn(Seq<char>) -> ListingView,
    first: Seq<PendingView>,
    second: Seq<PendingView>,
)
    ensures
        reads_left(plan, read, first + second) == reads_left(plan, read, first) + reads_left(
            plan,
            read,
            second,
        ),
    decreases second.len(),
{
    if second.len() == 0 {
        assert(first + second =~= first);
    } else {
        assert((first + second).drop_last() =~= first + second.drop_last());
        lemma_reads_left_concat(plan, read, first, second.drop_last());
    }
}

/// The reads for directories at one depth, counted as a frontier.
proof fn lemma_reads_at_depth(
    plan: CrawlPlan,
    read: spec_fn(Seq<char>) -> ListingView,
    paths: Seq<Seq<char>>,
    depth: nat,
)
    ensures
        reads_left(plan, read, at_depth(paths, depth)) == reads_among(plan, read, paths, depth),
    decreases paths.len(),
{
    if paths.len() > 0 {
        assert(at_depth(paths, depth).drop_last() =~= at_depth(paths.drop_last(), depth));
        lemma_reads_at_depth(plan, read, paths.drop_last(), depth);
    }
}

/// A directory at the depth bound queues nothing.
proof fn lemma_nothing_queued_at_the_bound(
    plan: CrawlPlan,
    dir: PendingView,
    entries: Seq<RawEntryView>,
)
    requires
        dir.depth >= plan.max_depth,
    ensures
        queued_paths(plan, dir, entries).len() == 0,
    decreases entries.len(),
{
    if entries.len() > 0 {
        lemma_nothing_queued_at_the_bound(plan, dir, entries.drop_last());
    }
}

/// Taking in the entries of a directory adds the directories that it queues
/// to the end of the frontier, one level down, and leaves the rest of the
/// frontier as it was.
pub proof fn lemma_absorb_entries_frontier(
    state: CrawlerView,
    dir: PendingView,
    entries: Seq<RawEntryView>,
)
    ensures
        state.absorb_entries(dir, entries).frontier == state.frontier + at_depth(
            queued_paths(state.plan, dir, entries),
            dir.depth + 1,
        ),
        state.absorb_entries(dir, entries).plan == state.plan,
        state.absorb_entries(dir, entries).awaiting == state.awaiting,
    decreases entries.len(),
{
    let after = state.absorb_entries(dir, entries);
    if entries.len() > 0 {
        lemma_absorb_entries_frontier(state, dir, entries.drop_last());
    }
    assert(after.frontier =~= state.frontier + at_depth(
        queued_paths(state.plan, dir, entries),
        dir.depth + 1,
    ));
}

/// A crawl in which no directory is awaited is over after as many reads as
/// its frontier needs.
proof fn lemma_crawl_runs_out(state: CrawlerView, read: spec_fn(Seq<char>) -> ListingView)
    requires
        state.awaiting is None,
    ensures
        crawl(state, read, reads_left(state.plan, read, state.frontier)).finished(),
    decreases reads_left(state.plan, read, state.frontier),
{
    let plan = state.plan;
    if state.frontier.len() > 0 {
        let first = state.frontier.first();
        let rest = state.frontier.drop_first();
        let entries = read(first.path).entries;
        let queued = queued_paths(plan, first, entries);
        assert(state.frontier =~= seq![first] + rest);
        lemma_reads_left_concat(plan, read, seq![first], rest);
        assert(seq![first].drop_last() =~= Seq::<PendingView>::empty());
        assert(seq![first].last() == first);
        assert(reads_left(plan, read, Seq::<PendingView>::empty()) == 0);
        assert(reads_left(plan, read, seq![first]) == reads_below(plan, read, first));

        let asked = state.after_next();
        let begun = CrawlerView { awaiting: None, ..asked };
        let next = asked.after_listing(read(first.path));
        lemma_absorb_entries_frontier(begun, first, entries);
        assert(next.frontier == rest + at_depth(queued, first.depth + 1));
        assert(next.awaiting is None);
        assert(next.plan == plan);
        lemma_reads_left_concat(plan, read, rest, at_depth(queued, first.depth + 1));
        lemma_reads_at_depth(plan, read, queued, first.depth + 1);
        if first.depth >= plan.max_depth {
            lemma_nothing_queued_at_the_bound(plan, first, entries);
        }
        assert(reads_left(plan, read, next.frontier) + 1 == reads_left(
            plan,
            read,
            state.frontier,
        ));
        lemma_crawl_runs_out(next, read);
    }
}

/// Every crawl ends: however the tree loops, a crawl under a depth bound is
/// over after finitely many reads, `reads_needed` of them.
pub proof fn lemma_crawl_ends(plan: CrawlPlan, read: spec_fn(Seq<char>) -> ListingView)
    ensures
        crawl(CrawlerView::initial(plan), read, reads_needed(plan, read)).finished(),
        exists|steps: nat| (#[trigger] crawl(CrawlerView::initial(plan), read, steps)).finished(),
{
    lemma_crawl_runs_out(CrawlerView::initial(plan), read);
}

/// What taking in one entry does to the names of the store and to the
/// frontier: no name and no waiting directory is lost, a readable entry is
/// filed under its name, and a directory that the crawl descends into waits
/// at the end of the frontier.
pub proof fn lemma_absorb_entry_grows(state: CrawlerView, dir: PendingView, entry: RawEntryView)
    requires
        distinct_names(state.store),
    ensures
        ({
            let after = state.absorb_entry(dir, entry);
            &&& distinct_names(after.store)
            &&& after.plan == state.plan
            &&& after.awaiting == state.awaiting
            &&& forall|name: Seq<char>| #[trigger]
                as_map(state.store).contains_key(name) ==> as_map(after.store).contains_key(name)
            &&& forall|waiting: PendingView| #[trigger]
                state.frontier.contains(waiting) ==> after.frontier.contains(waiting)
            &&& readable(entry) ==> as_map(after.store).contains_key(entry.name.unwrap())
                && as_map(after.store)[entry.name.unwrap()] == record_of(
                dir.path,
                entry.name.unwrap(),
                entry.metadata.unwrap(),
            )
            &&& state.plan.descends_into(dir, entry) ==> after.frontier.contains(
                PendingView {
                    path: child_path(dir.path, entry.name.unwrap()),
                    depth: dir.depth + 1,
                },
            )
        }),
{
    let after = state.absorb_entry(dir, entry);
    if readable(entry) {
        let record = record_of(dir.path, entry.name.unwrap(), entry.metadata.unwrap());
        lemma_with_record_distinct(state.store, record);
        lemma_with_record_as_map(state.store, record);
        assert(as_map(after.store) == as_map(state.store).insert(record.name, record));
        assert forall|waiting: PendingView| #[trigger]
            state.frontier.contains(waiting) implies after.frontier.contains(waiting) by {
            let i = choose|i: int| 0 <= i < state.frontier.len() && state.frontier[i] == waiting;
            assert(after.frontier[i] == waiting);
        }
        if state.plan.descends_into(dir, entry) {
            assert(after.frontier[state.frontier.len() as int] == (PendingView {
                path: child_path(dir.path, entry.name.unwrap()),
                depth: dir.depth + 1,
            }));
        }
    }
}

/// What taking in the entries of a directory does to the names of the store
/// and to the frontier: no name and no waiting directory is lost, every
/// readable entry is filed under its name, and every directory that the
/// crawl descends into waits in the frontier.
pub proof fn lemma_absorb_entries_grow(
    state: CrawlerView,
    dir: PendingView,
    entries: Seq<RawEntryView>,
)
    requires
        distinct_names(state.store),
    ensures
        ({
            let after = state.absorb_entries(dir, entries);
            &&& distinct_names(after.store)
            &&& after.plan == state.plan
            &&& after.awaiting == state.awaiting
            &&& forall|name: Seq<char>| #[trigger]
                as_map(state.store).contains_key(name) ==> as_map(after.store).contains_key(name)
            &&& forall|waiting: PendingView| #[trigger]
                state.frontier.contains(waiting) ==> after.frontier.contains(waiting)
            &&& forall|j: int|
                0 <= j < entries.len() && readable(#[trigger] entries[j]) ==> as_map(
                    after.store,
                ).contains_key(entries[j].name.unwrap())
            &&& forall|j: int|
                0 <= j < entries.len() && state.plan.descends_into(dir, #[trigger] entries[j])
                    ==> after.frontier.contains(
                    PendingView {
                        path: child_path(dir.path, entries[j].name.unwrap()),
                        depth: dir.depth + 1,
                    },
                )
        }),
    decreases entries.len(),
{
    if entries.len() > 0 {
        let shorter = entries.drop_last();
        let middle = state.absorb_entries(dir, shorter);
        let after = state.absorb_entries(dir, entries);
        lemma_absorb_entries_grow(state, dir, shorter);
        lemma_absorb_entry_grows(middle, dir, entries.last());
        assert forall|j: int| 0 <= j < entries.len() && readable(#[trigger] entries[j]) implies as_map(
            after.store,
        ).contains_key(entries[j].name.unwrap()) by {
            if j < shorter.len() {
                assert(shorter[j] == entries[j]);
                assert(as_map(middle.store).contains_key(entries[j].name.unwrap()));
            }
        }
        assert forall|j: int|
            0 <= j < entries.len() && state.plan.descends_into(
                dir,
                #[trigger] entries[j],
            ) implies after.frontier.contains(
            PendingView {
                path: child_path(dir.path, entries[j].name.unwrap()),
                depth: dir.depth + 1,
            },
        ) by {
            if j < shorter.len() {
                assert(shorter[j] == entries[j]);
                assert(middle.frontier.contains(
                    PendingView {
                        path: child_path(dir.path, entries[j].name.unwrap()),
                        depth: dir.depth + 1,
                    },
                ));
            }
        }
        assert forall|name: Seq<char>| #[trigger]
            as_map(state.store).contains_key(name) implies as_map(after.store).contains_key(
            name,
        ) by {
            assert(as_map(middle.store).contains_key(name));
        }
        assert forall|waiting: PendingView| #[trigger]
            state.frontier.contains(waiting) implies after.frontier.contains(waiting) by {
            assert(middle.frontier.contains(waiting));
        }
    }
}

/// The directory waits to be read or is being read.
pub open spec fn pending(state: CrawlerView, dir: PendingView) -> bool {
    state.frontier.contains(dir) || state.awaiting == Some(dir)
}

/// The crawl has done its work on the directories `done` and has lost none
/// that is still to do: every directory at the end of a trail that the crawl
/// follows is done or pending, unless the directory before it is not done
/// yet; and every readable entry of a directory that is done has its name
/// in the store.
pub open spec fn covered(
    state: CrawlerView,
    read: spec_fn(Seq<char>) -> ListingView,
    done: Set<PendingView>,
) -> bool {
    &&& state.sound()
    &&& forall|names: Seq<Seq<char>>| #[trigger]
        follows(state.plan, read, names) ==> {
            ||| done.contains(trail_end(state.plan, names))
            ||| pending(state, trail_end(state.plan, names))
            ||| names.len() > 0 && !done.contains(trail_end(state.plan, names.drop_last()))
        }
    &&& forall|dir: PendingView, j: int|
        #![trigger done.contains(dir), read(dir.path).entries[j]]
        done.contains(dir) && 0 <= j < read(dir.path).entries.len() && readable(
            read(dir.path).entries[j],
        ) ==> as_map(state.store).contains_key(read(dir.path).entries[j].name.unwrap())
}

/// Asking for the next directory loses no work.
proof fn lemma_next_covered(
    state: CrawlerView,
    read: spec_fn(Seq<char>) -> ListingView,
    done: Set<PendingView>,
)
    requires
        covered(state, read, done),
    ensures
        covered(state.after_next(), read, done),
{
    let asked = state.after_next();
    lemma_next_sound(state);
    assert forall|dir: PendingView| pending(state, dir) implies pending(asked, dir) by {
        if !(state.awaiting is Some || state.frontier.len() == 0) {
            let i = choose|i: int| 0 <= i < state.frontier.len() && state.frontier[i] == dir;
            if i > 0 {
                assert(asked.frontier[i - 1] == dir);
            }
        }
    }
    assert forall|names: Seq<Seq<char>>| #[trigger]
        follows(asked.plan, read, names) implies {
        ||| done.contains(trail_end(asked.plan, names))
        ||| pending(asked, trail_end(asked.plan, names))
        ||| names.len() > 0 && !done.contains(trail_end(asked.plan, names.drop_last()))
    } by {
        assert(follows(state.plan, read, names));
    }
}

/// Handing in the listing of the awaited directory loses no work, and the
/// awaited directory is done.
proof fn lemma_listing_covered(
    asked: CrawlerView,
    read: spec_fn(Seq<char>) -> ListingView,
    done: Set<PendingView>,
)
    requires
        covered(asked, read, done),
        asked.awaiting is Some,
    ensures
        covered(
            asked.after_listing(read(asked.awaiting.unwrap().path)),
            read,
            done.insert(asked.awaiting.unwrap()),
        ),
        asked.after_listing(read(asked.awaiting.unwrap().path)).plan == asked.plan,
{
    let dir = asked.awaiting.unwrap();
    let listing = read(dir.path);
    let after = asked.after_listing(listing);
    let begun = CrawlerView { awaiting: None, ..asked };
    let taken = begun.absorb_entries(dir, listing.entries);
    let done_after = done.insert(dir);
    let plan = asked.plan;
    lemma_listing_sound(asked, listing);
    lemma_absorb_entries_grow(begun, dir, listing.entries);
    assert(after.store == taken.store);
    assert(after.frontier == taken.frontier);
    assert(after.awaiting is None);
    assert(after.plan == plan);
    assert forall|names: Seq<Seq<char>>| #[trigger] follows(plan, read, names) implies {
        ||| done_after.contains(trail_end(plan, names))
        ||| pending(after, trail_end(plan, names))
        ||| names.len() > 0 && !done_after.contains(trail_end(plan, names.drop_last()))
    } by {
        let end = trail_end(plan, names);
        if done.contains(end) {
        } else if pending(asked, end) {
            if asked.frontier.contains(end) {
                assert(begun.frontier.contains(end));
                assert(after.frontier.contains(end));
            }
        } else {
            let parent = trail_end(plan, names.drop_last());
            if parent == dir {
                let j = choose|j: int|
                    0 <= j < read(parent.path).entries.len() && (#[trigger] read(
                        parent.path,
                    ).entries[j]).name == Some(names.last()) && plan.descends_into(
                        parent,
                        read(parent.path).entries[j],
                    );
                assert(plan.descends_into(dir, listing.entries[j]));
                assert(end == (PendingView {
                    path: child_path(dir.path, listing.entries[j].name.unwrap()),
                    depth: dir.depth + 1,
                }));
                assert(after.frontier.contains(end));
            }
        }
    }
    assert forall|other: PendingView, j: int|
        #![trigger done_after.contains(other), read(other.path).entries[j]]
        done_after.contains(other) && 0 <= j < read(other.path).entries.len() && readable(
            read(other.path).entries[j],
        ) implies as_map(after.store).contains_key(read(other.path).entries[j].name.unwrap()) by {
        if other == dir {
            assert(readable(listing.entries[j]));
        } else {
            assert(done.contains(other));
            assert(as_map(begun.store).contains_key(read(other.path).entries[j].name.unwrap()));
        }
    }
}

/// The directory `dir` stands at the end of a trail that the crawl follows.
pub open spec fn on_a_trail(
    plan: CrawlPlan,
    read: spec_fn(Seq<char>) -> ListingView,
    dir: PendingView,
) -> bool {
    exists|names: Seq<Seq<char>>|
        #![trigger follows(plan, read, names)]
        follows(plan, read, names) && trail_end(plan, names) == dir
}

/// `record` is the record of a readable entry among the entries `entries` of `dir`.
pub open spec fn filed_from(dir: PendingView, entries: Seq<RawEntryView>, record: RecordView) -> bool {
    exists|j: int|
        0 <= j < entries.len() && readable(#[trigger] entries[j]) && record == record_of(
            dir.path,
            entries[j].name.unwrap(),
            entries[j].metadata.unwrap(),
        )
}

/// `waiting` is the directory behind an entry among the entries `entries` of
/// `dir` into which the crawl descends.
pub open spec fn queued_from(
    plan: CrawlPlan,
    dir: PendingView,
    entries: Seq<RawEntryView>,
    waiting: PendingView,
) -> bool {
    exists|j: int|
        0 <= j < entries.len() && plan.descends_into(dir, #[trigger] entries[j]) && waiting == (
        PendingView { path: child_path(dir.path, entries[j].name.unwrap()), depth: dir.depth + 1 })
}

/// `record` is the record of a readable entry of a directory that is done.
pub open spec fn sourced(
    read: spec_fn(Seq<char>) -> ListingView,
    done: Set<PendingView>,
    record: RecordView,
) -> bool {
    exists|dir: PendingView| #[trigger]
        done.contains(dir) && filed_from(dir, read(dir.path).entries, record)
}

/// Nothing has come into the crawl from elsewhere: every directory that is
/// done or pending stands at the end of a trail that the crawl follows, and
/// every record is the record of a readable entry of a directory that is done.
pub open spec fn traced(
    state: CrawlerView,
    read: spec_fn(Seq<char>) -> ListingView,
    done: Set<PendingView>,
) -> bool {
    &&& forall|dir: PendingView| #[trigger] done.contains(dir) ==> on_a_trail(state.plan, read, dir)
    &&& forall|dir: PendingView| #[trigger]
        pending(state, dir) ==> on_a_trail(state.plan, read, dir)
    &&& forall|i: int|
        0 <= i < state.store.len() ==> sourced(read, done, #[trigger] state.store[i])
}

/// Where the records and the waiting directories come from after one entry
/// was taken in: from before, or from that entry.
proof fn lemma_absorb_entry_origin(state: CrawlerView, dir: PendingView, entry: RawEntryView)
    ensures
        forall|i: int|
            0 <= i < state.absorb_entry(dir, entry).store.len() ==> state.store.contains(
                #[trigger] state.absorb_entry(dir, entry).store[i],
            ) || (readable(entry) && state.absorb_entry(dir, entry).store[i] == record_of(
                dir.path,
                entry.name.unwrap(),
                entry.metadata.unwrap(),
            )),
        forall|k: int|
            0 <= k < state.absorb_entry(dir, entry).frontier.len() ==> state.frontier.contains(
                #[trigger] state.absorb_entry(dir, entry).frontier[k],
            ) || (state.plan.descends_into(dir, entry) && state.absorb_entry(
                dir,
                entry,
            ).frontier[k] == (PendingView {
                path: child_path(dir.path, entry.name.unwrap()),
                depth: dir.depth + 1,
            })),
{
    let after = state.absorb_entry(dir, entry);
    if readable(entry) {
        let record = record_of(dir.path, entry.name.unwrap(), entry.metadata.unwrap());
        lemma_position_of(state.store, record.name);
        assert forall|i: int| 0 <= i < after.store.len() implies state.store.contains(
            #[trigger] after.store[i],
        ) || after.store[i] == record by {
            if after.store[i] != record {
                assert(state.store[i] == after.store[i]);
            }
        }
        assert forall|k: int| 0 <= k < after.frontier.len() implies state.frontier.contains(
            #[trigger] after.frontier[k],
        ) || (state.plan.descends_into(dir, entry) && after.frontier[k] == (PendingView {
            path: child_path(dir.path, entry.name.unwrap()),
            depth: dir.depth + 1,
        })) by {
            if k < state.frontier.len() {
                assert(state.frontier[k] == after.frontier[k]);
            }
        }
    } else {
        assert forall|i: int| 0 <= i < after.store.len() implies state.store.contains(
            #[trigger] after.store[i],
        ) by {
            assert(state.store[i] == after.store[i]);
        }
        assert forall|k: int| 0 <= k < after.frontier.len() implies state.frontier.contains(
            #[trigger] after.frontier[k],
        ) by {
            assert(state.frontier[k] == after.frontier[k]);
        }
    }
}

/// Where the records and the waiting directories come from after the
/// entries of a directory were taken in: from before, or from those entries.
proof fn lemma_absorb_entries_origin(
    state: CrawlerView,
    dir: PendingView,
    entries: Seq<RawEntryView>,
)
    ensures
        forall|i: int|
            0 <= i < state.absorb_entries(dir, entries).store.len() ==> state.store.contains(
                #[trigger] state.absorb_entries(dir, entries).store[i],
            ) || filed_from(dir, entries, state.absorb_entries(dir, entries).store[i]),
        forall|k: int|
            0 <= k < state.absorb_entries(dir, entries).frontier.len() ==> state.frontier.contains(
                #[trigger] state.absorb_entries(dir, entries).frontier[k],
            ) || queued_from(
                state.plan,
                dir,
                entries,
                state.absorb_entries(dir, entries).frontier[k],
            ),
    decreases entries.len(),
{
    let after = state.absorb_entries(dir, entries);
    if entries.len() == 0 {
        assert forall|i: int| 0 <= i < after.store.len() implies state.store.contains(
            #[trigger] after.store[i],
        ) by {
            assert(state.store[i] == after.store[i]);
        }
        assert forall|k: int| 0 <= k < after.frontier.len() implies state.frontier.contains(
            #[trigger] after.frontier[k],
        ) by {
            assert(state.frontier[k] == after.frontier[k]);
        }
    } else {
        let shorter = entries.drop_last();
        let last = entries.len() - 1;
        let middle = state.absorb_entries(dir, shorter);
        lemma_absorb_entries_origin(state, dir, shorter);
        lemma_absorb_entry_origin(middle, dir, entries.last());
        lemma_absorb_entries_frontier(state, dir, shorter);
        assert forall|i: int| 0 <= i < after.store.len() implies state.store.contains(
            #[trigger] after.store[i],
        ) || filed_from(dir, entries, after.store[i]) by {
            let record = after.store[i];
            if middle.store.contains(record) {
                let m = choose|m: int| 0 <= m < middle.store.len() && middle.store[m] == record;
                assert(state.store.contains(middle.store[m]) || filed_from(
                    dir,
                    shorter,
                    middle.store[m],
                ));
                if !state.store.contains(record) {
                    let j = choose|j: int|
                        0 <= j < shorter.len() && readable(#[trigger] shorter[j]) && record
                            == record_of(
                            dir.path,
                            shorter[j].name.unwrap(),
                            shorter[j].metadata.unwrap(),
                        );
                    assert(entries[j] == shorter[j]);
                    assert(readable(entries[j]));
                }
            } else {
                assert(readable(entries[last]));
            }
        }
        assert forall|k: int| 0 <= k < after.frontier.len() implies state.frontier.contains(
            #[trigger] after.frontier[k],
        ) || queued_from(state.plan, dir, entries, after.frontier[k]) by {
            let waiting = after.frontier[k];
            if middle.frontier.contains(waiting) {
                let m = choose|m: int|
                    0 <= m < middle.frontier.len() && middle.frontier[m] == waiting;
                assert(state.frontier.contains(middle.frontier[m]) || queued_from(
                    state.plan,
                    dir,
                    shorter,
                    middle.frontier[m],
                ));
                if !state.frontier.contains(waiting) {
                    let j = choose|j: int|
                        0 <= j < shorter.len() && state.plan.descends_into(
                            dir,
                            #[trigger] shorter[j],
                        ) && waiting == (PendingView {
                            path: child_path(dir.path, shorter[j].name.unwrap()),
                            depth: dir.depth + 1,
                        });
                    assert(entries[j] == shorter[j]);
                    assert(state.plan.descends_into(dir, entries[j]));
                }
            } else {
                assert(state.plan.descends_into(dir, entries[last]));
            }
        }
    }
}

/// Asking for the next directory lets nothing in from elsewhere.
proof fn lemma_next_traced(
    state: CrawlerView,
    read: spec_fn(Seq<char>) -> ListingView,
    done: Set<PendingView>,
)
    requires
        traced(state, read, done),
    ensures
        traced(state.after_next(), read, done),
{
    let asked = state.after_next();
    assert forall|dir: PendingView| #[trigger] pending(asked, dir) implies on_a_trail(
        state.plan,
        read,
        dir,
    ) by {
        if !(state.awaiting is Some || state.frontier.len() == 0) {
            if asked.frontier.contains(dir) {
                let i = choose|i: int| 0 <= i < asked.frontier.len() && asked.frontier[i] == dir;
                assert(state.frontier[i + 1] == dir);
            } else {
                assert(state.frontier[0] == dir);
            }
            assert(pending(state, dir));
        } else {
            assert(pending(state, dir));
        }
    }
}

/// Handing in the listing of the awaited directory lets nothing in from elsewhere.
proof fn lemma_listing_traced(
    asked: CrawlerView,
    read: spec_fn(Seq<char>) -> ListingView,
    done: Set<PendingView>,
)
    requires
        traced(asked, read, done),
        asked.awaiting is Some,
    ensures
        traced(
            asked.after_listing(read(asked.awaiting.unwrap().path)),
            read,
            done.insert(asked.awaiting.unwrap()),
        ),
{
    let dir = asked.awaiting.unwrap();
    let plan = asked.plan;
    let listing = read(dir.path);
    let entries = listing.entries;
    let after = asked.after_listing(listing);
    let begun = CrawlerView { awaiting: None, ..asked };
    let taken = begun.absorb_entries(dir, entries);
    let done_after = done.insert(dir);
    lemma_absorb_entries_origin(begun, dir, entries);
    lemma_absorb_entries_frontier(begun, dir, entries);
    assert(after.store == taken.store);
    assert(after.frontier == taken.frontier);
    assert(after.awaiting is None);
    assert(after.plan == plan);
    assert(pending(asked, dir));
    assert(on_a_trail(plan, read, dir));
    assert forall|other: PendingView| #[trigger] done_after.contains(other) implies on_a_trail(
        plan,
        read,
        other,
    ) by {
        if other != dir {
            assert(done.contains(other));
        }
    }
    assert forall|waiting: PendingView| #[trigger] pending(after, waiting) implies on_a_trail(
        plan,
        read,
        waiting,
    ) by {
        let k = choose|k: int| 0 <= k < after.frontier.len() && after.frontier[k] == waiting;
        if begun.frontier.contains(after.frontier[k]) {
            assert(pending(asked, waiting));
        } else {
            assert(queued_from(plan, dir, entries, after.frontier[k]));
            let j = choose|j: int|
                0 <= j < entries.len() && plan.descends_into(dir, #[trigger] entries[j])
                    && waiting == (PendingView {
                    path: child_path(dir.path, entries[j].name.unwrap()),
                    depth: dir.depth + 1,
                });
            let names = choose|names: Seq<Seq<char>>|
                #![trigger follows(plan, read, names)]
                follows(plan, read, names) && trail_end(plan, names) == dir;
            let longer = names.push(entries[j].name.unwrap());
            assert(longer.drop_last() =~= names);
            assert(read(trail_end(plan, names).path).entries[j] == entries[j]);
            assert(follows(plan, read, longer));
            assert(trail_end(plan, longer) == waiting);
        }
    }
    assert forall|i: int| 0 <= i < after.store.len() implies sourced(
        read,
        done_after,
        #[trigger] after.store[i],
    ) by {
        let record = after.store[i];
        if begun.store.contains(record) {
            let m = choose|m: int| 0 <= m < asked.store.len() && asked.store[m] == record;
            assert(sourced(read, done, asked.store[m]));
            let from = choose|from: PendingView| #[trigger]
                done.contains(from) && filed_from(from, read(from.path).entries, record);
            assert(done_after.contains(from));
        } else {
            assert(filed_from(dir, entries, record));
            assert(done_after.contains(dir));
        }
    }
}

/// A crawl begins with nothing lost and nothing let in.
proof fn lemma_initial_accounted(plan: CrawlPlan, read: spec_fn(Seq<char>) -> ListingView)
    ensures
        covered(CrawlerView::initial(plan), read, Set::<PendingView>::empty()),
        traced(CrawlerView::initial(plan), read, Set::<PendingView>::empty()),
{
    let start = CrawlerView::initial(plan);
    let nothing = Set::<PendingView>::empty();
    lemma_initial_sound(plan);
    assert forall|trail: Seq<Seq<char>>| #[trigger] follows(plan, read, trail) implies {
        ||| nothing.contains(trail_end(plan, trail))
        ||| pending(start, trail_end(plan, trail))
        ||| trail.len() > 0 && !nothing.contains(trail_end(plan, trail.drop_last()))
    } by {
        if trail.len() == 0 {
            assert(start.frontier[0] == trail_end(plan, trail));
        }
    }
    assert forall|dir: PendingView| #[trigger] pending(start, dir) implies on_a_trail(
        plan,
        read,
        dir,
    ) by {
        let root_trail = Seq::<Seq<char>>::empty();
        assert(start.frontier[0] == dir);
        assert(follows(plan, read, root_trail));
        assert(trail_end(plan, root_trail) == dir);
    }
}

/// Driving a crawl loses no work and lets nothing in: what is done grows,
/// nothing that is still to do is lost, and nothing comes from elsewhere.
proof fn lemma_crawl_covers(
    state: CrawlerView,
    read: spec_fn(Seq<char>) -> ListingView,
    done: Set<PendingView>,
    steps: nat,
) -> (done_after: Set<PendingView>)
    requires
        covered(state, read, done),
        traced(state, read, done),
    ensures
        covered(crawl(state, read, steps), read, done_after),
        traced(crawl(state, read, steps), read, done_after),
        crawl(state, read, steps).plan == state.plan,
    decreases steps,
{
    if steps == 0 {
        done
    } else {
        let asked = state.after_next();
        lemma_next_covered(state, read, done);
        lemma_next_traced(state, read, done);
        match asked.awaiting {
            None => done,
            Some(dir) => {
                lemma_listing_covered(asked, read, done);
                lemma_listing_traced(asked, read, done);
                lemma_crawl_covers(
                    asked.after_listing(read(dir.path)),
                    read,
                    done.insert(dir),
                    (steps - 1) as nat,
                )
            },
        }
    }
}

/// When a crawl is over, every directory at the end of a trail that it
/// follows is done.
proof fn lemma_followed_is_done(
    state: CrawlerView,
    read: spec_fn(Seq<char>) -> ListingView,
    done: Set<PendingView>,
    names: Seq<Seq<char>>,
)
    requires
        covered(state, read, done),
        state.finished(),
        follows(state.plan, read, names),
    ensures
        done.contains(trail_end(state.plan, names)),
    decreases names.len(),
{
    if names.len() > 0 {
        lemma_followed_is_done(state, read, done, names.drop_last());
    }
}

/// A crawl that is driven to its end misses nothing within its plan: every
/// readable entry of the root, and of every directory that is reached from
/// the root through at most `max_depth` directories that are not skipped,
/// has its name in the store.
pub proof fn lemma_crawl_complete(
    plan: CrawlPlan,
    read: spec_fn(Seq<char>) -> ListingView,
    steps: nat,
    names: Seq<Seq<char>>,
    j: int,
)
    requires
        crawl(CrawlerView::initial(plan), read, steps).finished(),
        follows(plan, read, names),
        0 <= j < read(descend(plan.root, names)).entries.len(),
        readable(read(descend(plan.root, names)).entries[j]),
    ensures
        as_map(crawl(CrawlerView::initial(plan), read, steps).store).contains_key(
            read(descend(plan.root, names)).entries[j].name.unwrap(),
        ),
{
    let start = CrawlerView::initial(plan);
    lemma_initial_accounted(plan, read);
    let done = lemma_crawl_covers(start, read, Set::<PendingView>::empty(), steps);
    let end = crawl(start, read, steps);
    lemma_followed_is_done(end, read, done, names);
    let dir = trail_end(plan, names);
    assert(done.contains(dir) && readable(read(dir.path).entries[j]));
}

/// A trail that the crawl follows is open: it is at most `max_depth`
/// directories long, and no directory on it, the root included, is skipped.
pub proof fn lemma_follows_open(
    plan: CrawlPlan,
    read: spec_fn(Seq<char>) -> ListingView,
    names: Seq<Seq<char>>,
)
    requires
        follows(plan, read, names),
    ensures
        plan.open_trail(names),
    decreases names.len(),
{
    if names.len() > 0 {
        let before = names.drop_last();
        lemma_follows_open(plan, read, before);
        assert forall|k: int| 0 <= k <= names.len() implies !plan.skips(
            descend(plan.root, #[trigger] names.take(k)),
        ) by {
            if k < names.len() {
                assert(names.take(k) =~= before.take(k));
            } else {
                assert(names.take(k) =~= names);
            }
        }
    } else {
        assert forall|k: int| 0 <= k <= names.len() implies !plan.skips(
            descend(plan.root, #[trigger] names.take(k)),
        ) by {
            assert(names.take(k) =~= names);
        }
    }
}

/// Every name that the tree `read` gives can name a directory entry: it is
/// not empty and holds no `/`.
pub open spec fn gives_base_names(read: spec_fn(Seq<char>) -> ListingView) -> bool {
    forall|path: Seq<char>, j: int|
        0 <= j < read(path).entries.len() && (#[trigger] read(path).entries[j]).name is Some
            ==> is_base_name(read(path).entries[j].name.unwrap())
}

/// In a tree that gives base names, a trail that the crawl follows is made of base names.
pub proof fn lemma_follows_base_names(
    plan: CrawlPlan,
    read: spec_fn(Seq<char>) -> ListingView,
    names: Seq<Seq<char>>,
)
    requires
        gives_base_names(read),
        follows(plan, read, names),
    ensures
        are_base_names(names),
    decreases names.len(),
{
    if names.len() > 0 {
        let before = names.drop_last();
        lemma_follows_base_names(plan, read, before);
        assert forall|k: int| 0 <= k < names.len() implies is_base_name(#[trigger] names[k]) by {
            if k < before.len() {
                assert(before[k] == names[k]);
            }
        }
    }
}

/// What stands under a name when the crawl is over. Take a readable entry of
/// a directory on a trail that the crawl follows, the root or a directory at
/// any depth up to the bound, a skipped directory's own entry as well as a
/// file. Where every readable entry of that name that the crawl comes by
/// gives the same record, as it does where no other entry bears the name,
/// that record stands under the name in the store: with the entry's path,
/// kind, size and creation time.
pub proof fn lemma_crawl_files_the_entry(
    plan: CrawlPlan,
    read: spec_fn(Seq<char>) -> ListingView,
    steps: nat,
    names: Seq<Seq<char>>,
    j: int,
)
    requires
        crawl(CrawlerView::initial(plan), read, steps).finished(),
        follows(plan, read, names),
        0 <= j < read(descend(plan.root, names)).entries.len(),
        readable(read(descend(plan.root, names)).entries[j]),
        forall|other: Seq<Seq<char>>, i: int|
            #![trigger follows(plan, read, other), read(descend(plan.root, other)).entries[i]]
            follows(plan, read, other) && 0 <= i < read(descend(plan.root, other)).entries.len()
                && readable(read(descend(plan.root, other)).entries[i]) && read(
                descend(plan.root, other),
            ).entries[i].name == read(descend(plan.root, names)).entries[j].name ==> record_of(
                descend(plan.root, other),
                read(descend(plan.root, other)).entries[i].name.unwrap(),
                read(descend(plan.root, other)).entries[i].metadata.unwrap(),
            ) == record_of(
                descend(plan.root, names),
                read(descend(plan.root, names)).entries[j].name.unwrap(),
                read(descend(plan.root, names)).entries[j].metadata.unwrap(),
            ),
    ensures
        as_map(crawl(CrawlerView::initial(plan), read, steps).store).contains_key(
            read(descend(plan.root, names)).entries[j].name.unwrap(),
        ),
        as_map(crawl(CrawlerView::initial(plan), read, steps).store)[read(
            descend(plan.root, names),
        ).entries[j].name.unwrap()] == record_of(
            descend(plan.root, names),
            read(descend(plan.root, names)).entries[j].name.unwrap(),
            read(descend(plan.root, names)).entries[j].metadata.unwrap(),
        ),
{
    let start = CrawlerView::initial(plan);
    let end = crawl(start, read, steps);
    let entry = read(descend(plan.root, names)).entries[j];
    let name = entry.name.unwrap();
    lemma_crawl_complete(plan, read, steps, names, j);
    lemma_initial_accounted(plan, read);
    let done = lemma_crawl_covers(start, read, Set::<PendingView>::empty(), steps);
    lemma_position_of(end.store, name);
    let position = position_of(end.store, name).unwrap();
    let record = end.store[position];
    assert(sourced(read, done, record));
    let from = choose|from: PendingView| #[trigger]
        done.contains(from) && filed_from(from, read(from.path).entries, record);
    let i = choose|i: int|
        0 <= i < read(from.path).entries.len() && readable(#[trigger] read(from.path).entries[i])
            && record == record_of(
            from.path,
            read(from.path).entries[i].name.unwrap(),
            read(from.path).entries[i].metadata.unwrap(),
        );
    assert(on_a_trail(plan, read, from));
    let other = choose|other: Seq<Seq<char>>|
        #![trigger follows(plan, read, other)]
        follows(plan, read, other) && trail_end(plan, other) == from;
    assert(from.path == descend(plan.root, other));
    assert(read(descend(plan.root, other)).entries[i].name == Some(name));
}

/// Nothing that lies off the plan is in the store. In a tree that gives base
/// names, take a place below the root that the plan keeps the crawl out of:
/// one that lies deeper than `max_depth` directories, or one on the way to
/// which a directory, or the root, bears a skipped name. No record has the
/// path of an entry at that place.
pub proof fn lemma_nothing_off_the_plan(
    plan: CrawlPlan,
    read: spec_fn(Seq<char>) -> ListingView,
    steps: nat,
    place: Seq<Seq<char>>,
    name: Seq<char>,
    i: int,
)
    requires
        gives_base_names(read),
        are_base_names(place),
        is_base_name(name),
        !plan.open_trail(place),
        0 <= i < crawl(CrawlerView::initial(plan), read, steps).store.len(),
    ensures
        crawl(CrawlerView::initial(plan), read, steps).store[i].path != child_path(
            descend(plan.root, place),
            name,
        ),
{
    let start = CrawlerView::initial(plan);
    let end = crawl(start, read, steps);
    let record = end.store[i];
    lemma_initial_accounted(plan, read);
    let done = lemma_crawl_covers(start, read, Set::<PendingView>::empty(), steps);
    assert(sourced(read, done, record));
    let from = choose|from: PendingView| #[trigger]
        done.contains(from) && filed_from(from, read(from.path).entries, record);
    let j = choose|j: int|
        0 <= j < read(from.path).entries.len() && readable(#[trigger] read(from.path).entries[j])
            && record == record_of(
            from.path,
            read(from.path).entries[j].name.unwrap(),
            read(from.path).entries[j].metadata.unwrap(),
        );
    assert(on_a_trail(plan, read, from));
    let trail = choose|trail: Seq<Seq<char>>|
        #![trigger follows(plan, read, trail)]
        follows(plan, read, trail) && trail_end(plan, trail) == from;
    let filed_name = read(from.path).entries[j].name.unwrap();
    assert(is_base_name(filed_name));
    lemma_follows_base_names(plan, read, trail);
    lemma_follows_open(plan, read, trail);
    if record.path == child_path(descend(plan.root, place), name) {
        lemma_descend_below(plan.root, trail);
        lemma_descend_below(plan.root, place);
        lemma_child_path_injective(
            plan.root,
            descend(plan.root, trail),
            filed_name,
            descend(plan.root, place),
            name,
        );
        lemma_descend_injective(plan.root, trail, place);
    }
}

/// The entry of a skipped directory is itself filed: a readable entry is in
/// the store under its name once it is taken in, whether or not the crawl
/// descends into it.
pub proof fn lemma_entry_is_filed(state: CrawlerView, dir: PendingView, entry: RawEntryView)
    requires
        distinct_names(state.store),
        readable(entry),
    ensures
        as_map(state.absorb_entry(dir, entry).store)[entry.name.unwrap()] == record_of(
            dir.path,
            entry.name.unwrap(),
            entry.metadata.unwrap(),
        ),
        as_map(state.absorb_entry(dir, entry).store).contains_key(entry.name.unwrap()),
{
    lemma_absorb_entry_grows(state, dir, entry);
}

} // verus!

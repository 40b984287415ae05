//! The crawler: a breadth-first walk of a directory tree, to a bounded depth.
//!
//! The crawler decides; it does not touch the file system. It names the next
//! directory to read, and whoever drives it reads that directory and hands the
//! listing back. From the listing the crawler files one record per entry into
//! its index store and queues the directories it will ask for later.
//!
//! ```text
//! loop {
//!     match crawler.next_directory() {
//!         Some(path) => crawler.record_listing(read(path)),
//!         None => break,
//!     }
//! }
//! ```

use std::collections::VecDeque;
use vstd::prelude::*;
use crate::entry::{extension_of, EntryKind, EntryRecord, RecordView, Timestamp};
use crate::paths::{child_path, descend, join_child, last_segment, last_segment_of};
use crate::store::{
    distinct_names, lemma_position_of, lemma_with_record_distinct, with_record, IndexStore,
};
use crate::text::same_text;

verus! {

/// Why a directory or the metadata of an entry could not be read.
#[derive(Clone, Copy, Debug, PartialEq, Eq, Structural)]
pub enum ReadFailure {
    PermissionDenied,
    Other,
}

/// Why a crawl could not begin.
#[derive(Clone, Copy, Debug, PartialEq, Eq, Structural)]
pub enum CrawlError {
    /// No root was set: the root is the empty path.
    RootNotSet,
}

/// What the file system reports of one entry.
#[derive(Clone, Copy, Debug)]
pub struct RawMetadata {
    /// Length in bytes.
    pub size: u64,
    /// The entry itself is a directory.
    pub is_dir: bool,
    /// The entry itself is a regular file.
    pub is_file: bool,
    /// Creation time, where the file system reports one.
    pub created_at: Option<Timestamp>,
}

/// One entry of a directory, as it was read.
#[derive(Debug)]
pub struct RawEntry {
    /// The entry's base name; `None` where the name is not valid UTF-8.
    pub name: Option<String>,
    /// The entry's metadata, or why it could not be read.
    pub metadata: Result<RawMetadata, ReadFailure>,
    /// The entry's path leads to a directory, links followed.
    pub leads_to_directory: bool,
}

/// The mathematical content of a [`RawEntry`].
pub struct RawEntryView {
    pub name: Option<Seq<char>>,
    pub metadata: Result<RawMetadata, ReadFailure>,
    pub leads_to_directory: bool,
}

impl View for RawEntry {
    type V = RawEntryView;

    open spec fn view(&self) -> RawEntryView {
        RawEntryView {
            name: match self.name {
                Some(name) => Some(name@),
                None => None,
            },
            metadata: self.metadata,
            leads_to_directory: self.leads_to_directory,
        }
    }
}

/// What reading one directory gave: the entries that were read, in the order
/// in which they came, and the failure that ended the read, if one did. A
/// directory that could not be opened is a listing without entries.
#[derive(Debug)]
pub struct Listing {
    pub entries: Vec<RawEntry>,
    pub failure: Option<ReadFailure>,
}

/// The mathematical content of a [`Listing`].
pub struct ListingView {
    pub entries: Seq<RawEntryView>,
    pub failure: Option<ReadFailure>,
}

impl View for Listing {
    type V = ListingView;

    open spec fn view(&self) -> ListingView {
        ListingView {
            entries: self.entries@.map_values(|entry: RawEntry| entry@),
            failure: self.failure,
        }
    }
}

/// What went wrong at one place of a crawl. None of these ends the crawl.
#[derive(Clone, Copy, Debug, PartialEq, Eq, Structural)]
pub enum WarningKind {
    /// An entry's name is not valid UTF-8; the entry is left out.
    NameNotUtf8,
    /// An entry's metadata may not be read; the entry is left out.
    EntryDenied,
    /// An entry's metadata could not be read; the entry is left out.
    EntryUnreadable,
    /// A directory may not be read; what was not read of it is left out.
    DirectoryDenied,
    /// A directory could not be read; what was not read of it is left out.
    DirectoryUnreadable,
}

/// A warning of a crawl: what went wrong, and where. For a name that is not
/// valid UTF-8 the place is the directory that holds the entry; for the others
/// it is the path of the entry or directory itself.
#[derive(Debug)]
pub struct CrawlWarning {
    pub kind: WarningKind,
    pub path: String,
}

/// The mathematical content of a [`CrawlWarning`].
pub struct WarningView {
    pub kind: WarningKind,
    pub path: Seq<char>,
}

impl View for CrawlWarning {
    type V = WarningView;

    open spec fn view(&self) -> WarningView {
        WarningView { kind: self.kind, path: self.path@ }
    }
}

/// A directory that waits to be read, and how deep below the root it lies.
#[derive(Debug)]
pub struct Pending {
    pub path: String,
    pub depth: usize,
}

/// The mathematical content of a [`Pending`].
pub struct PendingView {
    pub path: Seq<char>,
    pub depth: nat,
}

impl View for Pending {
    type V = PendingView;

    open spec fn view(&self) -> PendingView {
        PendingView { path: self.path@, depth: self.depth as nat }
    }
}

/// What a crawl is asked to do: where to start, how deep to go, and which
/// directories to stay out of.
pub struct CrawlPlan {
    pub root: Seq<char>,
    pub max_depth: nat,
    pub skip_names: Seq<Seq<char>>,
}

impl CrawlPlan {
    /// The directory at `path` is one to stay out of: its last segment is a skipped name.
    pub open spec fn skips(self, path: Seq<char>) -> bool {
        self.skip_names.contains(last_segment(path))
    }

    /// The way from the root down through the directories `names` is open: it
    /// is at most `max_depth` directories long, and neither the root nor any
    /// directory on the way is skipped.
    pub open spec fn open_trail(self, names: Seq<Seq<char>>) -> bool {
        &&& names.len() <= self.max_depth
        &&& forall|k: int|
            0 <= k <= names.len() ==> !self.skips(descend(self.root, #[trigger] names.take(k)))
    }

    /// `dir` is a directory that the crawl may read: an open trail of
    /// `dir.depth` names leads from the root to `dir.path`.
    pub open spec fn reaches(self, dir: PendingView) -> bool {
        exists|names: Seq<Seq<char>>|
            #![trigger self.open_trail(names)]
            self.open_trail(names) && names.len() == dir.depth && dir.path == descend(
                self.root,
                names,
            )
    }

    /// Whether the crawl will go into the entry `entry` of `dir`: the entry
    /// was read with its name and metadata, it leads to a directory, that
    /// directory is within the depth bound, and it is not skipped.
    pub open spec fn descends_into(self, dir: PendingView, entry: RawEntryView) -> bool {
        &&& entry.name is Some
        &&& entry.metadata is Ok
        &&& entry.leads_to_directory
        &&& dir.depth < self.max_depth
        &&& !self.skips(child_path(dir.path, entry.name.unwrap()))
    }

    /// `record` is an entry of a directory that the crawl may read.
    pub open spec fn lies_under(self, record: RecordView) -> bool {
        exists|names: Seq<Seq<char>>|
            #![trigger self.open_trail(names)]
            self.open_trail(names) && record.path == child_path(
                descend(self.root, names),
                record.name,
            )
    }
}

/// The record that the crawler files for the entry called `name` of the
/// directory `dir`, whose metadata is `metadata`.
pub open spec fn record_of(dir: Seq<char>, name: Seq<char>, metadata: RawMetadata) -> RecordView {
    RecordView {
        name,
        path: child_path(dir, name),
        size: metadata.size,
        kind: if metadata.is_dir {
            EntryKind::Directory
        } else if metadata.is_file {
            EntryKind::File
        } else {
            EntryKind::Unknown
        },
        created_at: metadata.created_at,
        extension: extension_of(name),
    }
}

/// The state of a crawl.
pub struct CrawlerView {
    pub plan: CrawlPlan,
    /// The directories that wait to be read, the next one first.
    pub frontier: Seq<PendingView>,
    /// The directory whose listing the crawler waits for.
    pub awaiting: Option<PendingView>,
    /// The records filed so far.
    pub store: Seq<RecordView>,
    /// The warnings recorded so far.
    pub warnings: Seq<WarningView>,
}

impl CrawlerView {
    /// The state in which a crawl begins: nothing filed, and the root waiting
    /// to be read, unless the root itself is skipped.
    pub open spec fn initial(plan: CrawlPlan) -> CrawlerView {
        CrawlerView {
            plan,
            frontier: if plan.skips(plan.root) {
                Seq::empty()
            } else {
                seq![PendingView { path: plan.root, depth: 0 }]
            },
            awaiting: None,
            store: Seq::empty(),
            warnings: Seq::empty(),
        }
    }

    /// The crawl is over: no directory waits to be read or is being read.
    pub open spec fn finished(self) -> bool {
        self.awaiting is None && self.frontier.len() == 0
    }

    /// The state with one more warning.
    pub open spec fn warn(self, kind: WarningKind, path: Seq<char>) -> CrawlerView {
        CrawlerView { warnings: self.warnings.push(WarningView { kind, path }), ..self }
    }

    /// Whether the crawl will go into the entry `entry` of `dir`.
    pub open spec fn descends_into(self, dir: PendingView, entry: RawEntryView) -> bool {
        self.plan.descends_into(dir, entry)
    }

    /// The state after one entry of the directory `dir` was taken in.
    ///
    /// An entry without a readable name or without metadata leaves a warning
    /// and nothing else. Any other entry is filed under its name, in place of
    /// a record that had the name; and where the crawl descends into it, it
    /// joins the end of the frontier one level below `dir`.
    pub open spec fn absorb_entry(self, dir: PendingView, entry: RawEntryView) -> CrawlerView {
        match entry.name {
            None => self.warn(WarningKind::NameNotUtf8, dir.path),
            Some(name) => {
                let path = child_path(dir.path, name);
                match entry.metadata {
                    Err(ReadFailure::PermissionDenied) => self.warn(WarningKind::EntryDenied, path),
                    Err(ReadFailure::Other) => self.warn(WarningKind::EntryUnreadable, path),
                    Ok(metadata) => CrawlerView {
                        store: with_record(self.store, record_of(dir.path, name, metadata)),
                        frontier: if self.descends_into(dir, entry) {
                            self.frontier.push(PendingView { path, depth: dir.depth + 1 })
                        } else {
                            self.frontier
                        },
                        ..self
                    },
                }
            },
        }
    }

    /// The state after the entries of the directory `dir` were taken in, in order.
    pub open spec fn absorb_entries(
        self,
        dir: PendingView,
        entries: Seq<RawEntryView>,
    ) -> CrawlerView
        decreases entries.len(),
    {
        if entries.len() == 0 {
            self
        } else {
            self.absorb_entries(dir, entries.drop_last()).absorb_entry(dir, entries.last())
        }
    }

    /// The state after the crawler was asked for the next directory: the
    /// first directory of the frontier becomes the one awaited, unless one is
    /// awaited already or none is left.
    pub open spec fn after_next(self) -> CrawlerView {
        if self.awaiting is Some || self.frontier.len() == 0 {
            self
        } else {
            CrawlerView {
                awaiting: Some(self.frontier.first()),
                frontier: self.frontier.drop_first(),
                ..self
            }
        }
    }

    /// The state after the listing of the awaited directory was handed in:
    /// its entries are taken in, in order, and a failure that ended the read
    /// leaves a warning. Without an awaited directory nothing changes.
    pub open spec fn after_listing(self, listing: ListingView) -> CrawlerView {
        match self.awaiting {
            None => self,
            Some(dir) => {
                let read = CrawlerView { awaiting: None, ..self }.absorb_entries(
                    dir,
                    listing.entries,
                );
                match listing.failure {
                    None => read,
                    Some(ReadFailure::PermissionDenied) => read.warn(
                        WarningKind::DirectoryDenied,
                        dir.path,
                    ),
                    Some(ReadFailure::Other) => read.warn(
                        WarningKind::DirectoryUnreadable,
                        dir.path,
                    ),
                }
            },
        }
    }

    /// The crawl has kept to its plan: every directory that it has queued or
    /// is reading is one that it may read, every record is an entry of such a
    /// directory, and no two records share a name.
    pub open spec fn sound(self) -> bool {
        &&& forall|i: int|
            0 <= i < self.frontier.len() ==> self.plan.reaches(#[trigger] self.frontier[i])
        &&& self.awaiting matches Some(dir) ==> self.plan.reaches(dir)
        &&& forall|i: int|
            0 <= i < self.store.len() ==> self.plan.lies_under(#[trigger] self.store[i])
        &&& distinct_names(self.store)
    }
}

/// A crawl begins sound.
pub proof fn lemma_initial_sound(plan: CrawlPlan)
    ensures
        CrawlerView::initial(plan).sound(),
{
    let start = CrawlerView::initial(plan);
    if !plan.skips(plan.root) {
        let names = Seq::<Seq<char>>::empty();
        assert forall|k: int| 0 <= k <= names.len() implies !plan.skips(
            descend(plan.root, #[trigger] names.take(k)),
        ) by {
            assert(names.take(k) =~= names);
        }
        assert(plan.open_trail(names));
        assert(plan.reaches(start.frontier[0]));
    }
}

/// Asking for the next directory keeps a crawl sound.
pub proof fn lemma_next_sound(state: CrawlerView)
    requires
        state.sound(),
    ensures
        state.after_next().sound(),
{
    let after = state.after_next();
    if !(state.awaiting is Some || state.frontier.len() == 0) {
        assert(after.awaiting == Some(state.frontier[0]));
        assert forall|i: int| 0 <= i < after.frontier.len() implies state.plan.reaches(
            #[trigger] after.frontier[i],
        ) by {
            assert(after.frontier[i] == state.frontier[i + 1]);
        }
    }
}

/// An entry of a directory that the crawl may read lies under that directory,
/// and where the crawl descends into it, it may read that directory too.
proof fn lemma_entry_within_plan(state: CrawlerView, dir: PendingView, entry: RawEntryView)
    requires
        state.plan.reaches(dir),
        entry.name is Some,
        entry.metadata is Ok,
    ensures
        state.plan.lies_under(record_of(dir.path, entry.name.unwrap(), entry.metadata.unwrap())),
        state.descends_into(dir, entry) ==> state.plan.reaches(
            PendingView { path: child_path(dir.path, entry.name.unwrap()), depth: dir.depth + 1 },
        ),
{
    let plan = state.plan;
    let name = entry.name.unwrap();
    let names = choose|names: Seq<Seq<char>>|
        #![trigger plan.open_trail(names)]
        plan.open_trail(names) && names.len() == dir.depth && dir.path == descend(plan.root, names);
    let record = record_of(dir.path, name, entry.metadata.unwrap());
    assert(plan.open_trail(names) && record.path == child_path(
        descend(plan.root, names),
        record.name,
    ));
    if state.descends_into(dir, entry) {
        let longer = names.push(name);
        assert(longer.drop_last() =~= names);
        assert(descend(plan.root, longer) == child_path(dir.path, name));
        assert forall|k: int| 0 <= k <= longer.len() implies !plan.skips(
            descend(plan.root, #[trigger] longer.take(k)),
        ) by {
            if k <= names.len() {
                assert(longer.take(k) =~= names.take(k));
            } else {
                assert(longer.take(k) =~= longer);
            }
        }
        assert(plan.open_trail(longer));
    }
}

/// Taking in an entry of a directory that the crawl may read keeps it sound.
pub proof fn lemma_absorb_entry_sound(state: CrawlerView, dir: PendingView, entry: RawEntryView)
    requires
        state.sound(),
        state.plan.reaches(dir),
    ensures
        state.absorb_entry(dir, entry).sound(),
{
    let after = state.absorb_entry(dir, entry);
    if entry.name is Some && entry.metadata is Ok {
        let record = record_of(dir.path, entry.name.unwrap(), entry.metadata.unwrap());
        lemma_entry_within_plan(state, dir, entry);
        lemma_with_record_distinct(state.store, record);
        lemma_position_of(state.store, record.name);
        assert forall|i: int| 0 <= i < after.store.len() implies state.plan.lies_under(
            #[trigger] after.store[i],
        ) by {
            if after.store[i] != record {
                assert(after.store[i] == state.store[i]);
            }
        }
        assert forall|i: int| 0 <= i < after.frontier.len() implies state.plan.reaches(
            #[trigger] after.frontier[i],
        ) by {
            if i < state.frontier.len() {
                assert(after.frontier[i] == state.frontier[i]);
            }
        }
    }
}

/// Taking in entries of a directory that the crawl may read keeps it sound.
pub proof fn lemma_absorb_entries_sound(
    state: CrawlerView,
    dir: PendingView,
    entries: Seq<RawEntryView>,
)
    requires
        state.sound(),
        state.plan.reaches(dir),
    ensures
        state.absorb_entries(dir, entries).sound(),
        state.absorb_entries(dir, entries).plan == state.plan,
        state.absorb_entries(dir, entries).awaiting == state.awaiting,
    decreases entries.len(),
{
    if entries.len() > 0 {
        lemma_absorb_entries_sound(state, dir, entries.drop_last());
        lemma_absorb_entry_sound(
            state.absorb_entries(dir, entries.drop_last()),
            dir,
            entries.last(),
        );
    }
}

/// Handing in a listing keeps a crawl sound.
pub proof fn lemma_listing_sound(state: CrawlerView, listing: ListingView)
    requires
        state.sound(),
    ensures
        state.after_listing(listing).sound(),
{
    if let Some(dir) = state.awaiting {
        let begun = CrawlerView { awaiting: None, ..state };
        assert(begun.sound());
        lemma_absorb_entries_sound(begun, dir, listing.entries);
    }
}

/// The skipped names as plain text.
pub open spec fn names_view(names: Seq<String>) -> Seq<Seq<char>> {
    names.map_values(|name: String| name@)
}

/// Tests whether the last segment of `path` is one of `skip_names`.
fn is_skipped(skip_names: &Vec<String>, path: &str) -> (skipped: bool)
    ensures
        skipped == names_view(skip_names@).contains(last_segment(path@)),
{
    let segment = last_segment_of(path);
    let mut i: usize = 0;
    while i < skip_names.len()
        invariant
            i <= skip_names.len(),
            segment@ == last_segment(path@),
            forall|j: int| 0 <= j < i ==> names_view(skip_names@)[j] != segment@,
        decreases skip_names.len() - i,
    {
        if same_text(skip_names[i].as_str(), segment.as_str()) {
            assert(names_view(skip_names@)[i as int] == segment@);
            return true;
        }
        i += 1;
    }
    false
}

/// A breadth-first crawl in progress.
pub struct Crawler {
    root: String,
    max_depth: usize,
    skip_names: Vec<String>,
    frontier: VecDeque<Pending>,
    awaiting: Option<Pending>,
    store: IndexStore,
    warnings: Vec<CrawlWarning>,
}

impl View for Crawler {
    type V = CrawlerView;

    closed spec fn view(&self) -> CrawlerView {
        CrawlerView {
            plan: CrawlPlan {
                root: self.root@,
                max_depth: self.max_depth as nat,
                skip_names: names_view(self.skip_names@),
            },
            frontier: self.frontier@.map_values(|dir: Pending| dir@),
            awaiting: match self.awaiting {
                Some(dir) => Some(dir@),
                None => None,
            },
            store: self.store@,
            warnings: self.warnings@.map_values(|warning: CrawlWarning| warning@),
        }
    }
}

impl Crawler {
    /// The crawler is well formed: its store is, and the crawl has kept to its plan.
    /// Every crawler that this module hands out is well formed.
    pub closed spec fn wf(&self) -> bool {
        &&& self.store.wf()
        &&& self@.sound()
    }

    /// A well-formed crawler has kept to its plan.
    pub proof fn lemma_sound(&self)
        requires
            self.wf(),
        ensures
            self@.sound(),
    {
    }

    /// A crawler that is about to crawl the tree below `root`, at most
    /// `max_depth` levels deep, staying out of directories called one of
    /// `skip_names`.
    pub fn new(root: String, max_depth: usize, skip_names: Vec<String>) -> (crawler: Crawler)
        ensures
            crawler.wf(),
            crawler@ == CrawlerView::initial(
                CrawlPlan {
                    root: root@,
                    max_depth: max_depth as nat,
                    skip_names: names_view(skip_names@),
                },
            ),
    {
        let mut frontier: VecDeque<Pending> = VecDeque::new();
        if !is_skipped(&skip_names, root.as_str()) {
            frontier.push_back(Pending { path: root.clone(), depth: 0 });
        }
        let crawler = Crawler {
            root,
            max_depth,
            skip_names,
            frontier,
            awaiting: None,
            store: IndexStore::new(),
            warnings: Vec::new(),
        };
        proof {
            let start = CrawlerView::initial(crawler@.plan);
            lemma_initial_sound(crawler@.plan);
            assert(crawler@.frontier =~= start.frontier);
            assert(crawler@.warnings =~= start.warnings);
        }
        crawler
    }

    /// A crawler for the tree below `root`, as `new` makes it, unless no
    /// root is set: for an empty root no crawler is made and no root is
    /// guessed.
    pub fn try_new(root: String, max_depth: usize, skip_names: Vec<String>) -> (made: Result<
        Crawler,
        CrawlError,
    >)
        ensures
            made is Err <==> root@.len() == 0,
            made matches Err(error) ==> error == CrawlError::RootNotSet,
            made matches Ok(crawler) ==> crawler.wf() && crawler@ == CrawlerView::initial(
                CrawlPlan {
                    root: root@,
                    max_depth: max_depth as nat,
                    skip_names: names_view(skip_names@),
                },
            ),
    {
        if root.as_str().is_empty() {
            return Err(CrawlError::RootNotSet);
        }
        Ok(Crawler::new(root, max_depth, skip_names))
    }

    /// Whether the crawl is over.
    pub fn is_finished(&self) -> (finished: bool)
        ensures
            finished == self@.finished(),
    {
        self.awaiting.is_none() && self.frontier.len() == 0
    }

    /// The path of the directory to read next, or `None` when the crawl is
    /// over. Until its listing is handed in, the same directory is named again.
    pub fn next_directory(&mut self) -> (path: Option<String>)
        requires
            old(self).wf(),
        ensures
            final(self).wf(),
            final(self)@ == old(self)@.after_next(),
            match path {
                Some(path) => final(self)@.awaiting matches Some(dir) && dir.path == path@,
                None => final(self)@.finished(),
            },
    {
        proof {
            lemma_next_sound(self@);
        }
        if self.awaiting.is_none() {
            let first = self.frontier.pop_front();
            assert(self.frontier@.map_values(|dir: Pending| dir@) =~= old(self)@.after_next().frontier);
            self.awaiting = first;
        }
        match &self.awaiting {
            Some(dir) => Some(dir.path.clone()),
            None => None,
        }
    }

    /// The index store as the crawl has filled it so far.
    pub fn store(&self) -> (store: &IndexStore)
        requires
            self.wf(),
        ensures
            store.wf(),
            store@ == self@.store,
    {
        &self.store
    }

    /// The warnings recorded so far, in the order in which they arose.
    pub fn warnings(&self) -> (warnings: &Vec<CrawlWarning>)
        ensures
            warnings@.map_values(|warning: CrawlWarning| warning@) == self@.warnings,
    {
        &self.warnings
    }

    /// Ends the crawl and hands out its index store.
    pub fn into_store(self) -> (store: IndexStore)
        requires
            self.wf(),
        ensures
            store.wf(),
            store@ == self@.store,
    {
        self.store
    }

    /// Records a warning.
    fn push_warning(&mut self, kind: WarningKind, path: String)
        requires
            old(self).wf(),
        ensures
            final(self).wf(),
            final(self)@ == old(self)@.warn(kind, path@),
    {
        self.warnings.push(CrawlWarning { kind, path });
        assert(self@.warnings =~= old(self)@.warn(kind, path@).warnings);
    }

    /// Takes in one entry of the directory `dir`.
    fn absorb(&mut self, dir: &Pending, entry: &RawEntry)
        requires
            old(self).wf(),
            old(self)@.plan.reaches(dir@),
        ensures
            final(self).wf(),
            final(self)@ == old(self)@.absorb_entry(dir@, entry@),
    {
        proof {
            lemma_absorb_entry_sound(self@, dir@, entry@);
        }
        match &entry.name {
            None => {
                self.push_warning(WarningKind::NameNotUtf8, dir.path.clone());
            },
            Some(name) => {
                let path = join_child(dir.path.as_str(), name.as_str());
                match entry.metadata {
                    Err(ReadFailure::PermissionDenied) => {
                        self.push_warning(WarningKind::EntryDenied, path);
                    },
                    Err(ReadFailure::Other) => {
                        self.push_warning(WarningKind::EntryUnreadable, path);
                    },
                    Ok(metadata) => {
                        let descend_into = entry.leads_to_directory && dir.depth < self.max_depth
                            && !is_skipped(&self.skip_names, path.as_str());
                        if descend_into {
                            self.frontier.push_back(
                                Pending { path: path.clone(), depth: dir.depth + 1 },
                            );
                        }
                        let record = EntryRecord::new(
                            name.clone(),
                            path,
                            metadata.size,
                            EntryKind::classify(metadata.is_dir, metadata.is_file),
                            metadata.created_at,
                        );
                        self.store.insert(record);
                        assert(self@.frontier =~= old(self)@.absorb_entry(dir@, entry@).frontier);
                    },
                }
            },
        }
    }

    /// Takes in the listing of the directory that was named last. Returns
    /// whether a directory was awaited; where none was, nothing changes.
    pub fn record_listing(&mut self, listing: &Listing) -> (taken: bool)
        requires
            old(self).wf(),
        ensures
            final(self).wf(),
            final(self)@ == old(self)@.after_listing(listing@),
            taken == old(self)@.awaiting is Some,
    {
        let dir = match self.awaiting.take() {
            Some(dir) => dir,
            None => {
                return false;
            },
        };
        let ghost begun = self@;
        assert(begun == (CrawlerView { awaiting: None, ..old(self)@ }));
        let mut i: usize = 0;
        while i < listing.entries.len()
            invariant
                i <= listing.entries.len(),
                self.wf(),
                begun.plan.reaches(dir@),
                self@.plan == begun.plan,
                self@ == begun.absorb_entries(dir@, listing@.entries.take(i as int)),
            decreases listing.entries.len() - i,
        {
            proof {
                let taken_in = listing@.entries.take(i + 1);
                assert(taken_in.drop_last() =~= listing@.entries.take(i as int));
                assert(taken_in.last() == listing.entries@[i as int]@);
            }
            self.absorb(&dir, &listing.entries[i]);
            i += 1;
        }
        assert(listing@.entries.take(i as int) =~= listing@.entries);
        match listing.failure {
            None => {},
            Some(ReadFailure::PermissionDenied) => {
                self.push_warning(WarningKind::DirectoryDenied, dir.path);
            },
            Some(ReadFailure::Other) => {
                self.push_warning(WarningKind::DirectoryUnreadable, dir.path);
            },
        }
        true
    }
}

} // verus!

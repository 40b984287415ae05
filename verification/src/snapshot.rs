//! The snapshot of a store: the shape in which an index is written to a file
//! and read back.
//!
//! A snapshot is a list of entries, one per record: the record's name, and
//! under it the record's path, size, kind tag, creation time and extension.
//! Turning the list into the text of a file, and the text back into a list,
//! is left to whoever owns the file. A file that is missing or cannot be read
//! as a snapshot stands for an empty store.

use vstd::prelude::*;
use crate::entry::{EntryKind, EntryRecord, RecordView, Timestamp};
use crate::store::{
    distinct_names, lemma_position_of, position_of, with_record, IndexStore,
};
use crate::text::same_text;

verus! {

/// What a snapshot holds under a record's name.
#[derive(Debug)]
pub struct SnapshotDetails {
    pub file_path: String,
    pub file_size: u64,
    /// The kind of the object as a tag: `file`, `directory` or `unknown`.
    pub file_type: String,
    pub creation_date: Option<Timestamp>,
    pub file_extension: String,
}

/// One entry of a snapshot: a name and what is filed under it.
#[derive(Debug)]
pub struct SnapshotEntry {
    pub name: String,
    pub details: SnapshotDetails,
}

/// The mathematical content of a [`SnapshotEntry`].
pub struct SnapshotEntryView {
    pub name: Seq<char>,
    pub file_path: Seq<char>,
    pub file_size: u64,
    pub file_type: Seq<char>,
    pub creation_date: Option<Timestamp>,
    pub file_extension: Seq<char>,
}

impl View for SnapshotEntry {
    type V = SnapshotEntryView;

    open spec fn view(&self) -> SnapshotEntryView {
        SnapshotEntryView {
            name: self.name@,
            file_path: self.details.file_path@,
            file_size: self.details.file_size,
            file_type: self.details.file_type@,
            creation_date: self.details.creation_date,
            file_extension: self.details.file_extension@,
        }
    }
}

/// The tag under which a kind is written.
pub open spec fn kind_tag(kind: EntryKind) -> Seq<char> {
    match kind {
        EntryKind::File => "file"@,
        EntryKind::Directory => "directory"@,
        EntryKind::Unknown => "unknown"@,
    }
}

/// The kind that a tag stands for. A tag that is neither `file` nor
/// `directory` stands for an unknown kind.
pub open spec fn kind_of_tag(tag: Seq<char>) -> EntryKind {
    if tag == "file"@ {
        EntryKind::File
    } else if tag == "directory"@ {
        EntryKind::Directory
    } else {
        EntryKind::Unknown
    }
}

/// A kind survives being written as a tag and read back.
pub proof fn lemma_kind_round_trip(kind: EntryKind)
    ensures
        kind_of_tag(kind_tag(kind)) == kind,
{
    reveal_strlit("file");
    reveal_strlit("directory");
    reveal_strlit("unknown");
    assert("file"@.len() == 4);
    assert("directory"@.len() == 9);
    assert("unknown"@.len() == 7);
}

/// The snapshot entry of a record.
pub open spec fn entry_of(record: RecordView) -> SnapshotEntryView {
    SnapshotEntryView {
        name: record.name,
        file_path: record.path,
        file_size: record.size,
        file_type: kind_tag(record.kind),
        creation_date: record.created_at,
        file_extension: record.extension,
    }
}

/// The record of a snapshot entry.
pub open spec fn record_of_entry(entry: SnapshotEntryView) -> RecordView {
    RecordView {
        name: entry.name,
        path: entry.file_path,
        size: entry.file_size,
        kind: kind_of_tag(entry.file_type),
        created_at: entry.creation_date,
        extension: entry.file_extension,
    }
}

/// The snapshot of the records `entries`: one entry per record, in order.
pub open spec fn snapshot_of(entries: Seq<RecordView>) -> Seq<SnapshotEntryView> {
    Seq::new(entries.len(), |i: int| entry_of(entries[i]))
}

/// The records that a snapshot restores: its entries inserted one after the
/// other, a later entry taking the place of an earlier one with its name.
pub open spec fn restored(snapshot: Seq<SnapshotEntryView>) -> Seq<RecordView>
    decreases snapshot.len(),
{
    if snapshot.len() == 0 {
        Seq::empty()
    } else {
        with_record(restored(snapshot.drop_last()), record_of_entry(snapshot.last()))
    }
}

/// A record survives being written as a snapshot entry and read back: every
/// field, an absent creation time included.
pub proof fn lemma_record_round_trip(record: RecordView)
    ensures
        record_of_entry(entry_of(record)) == record,
{
    lemma_kind_round_trip(record.kind);
}

/// A store survives being saved and loaded: the snapshot of records with
/// distinct names restores those records, in their order.
pub proof fn lemma_snapshot_round_trip(entries: Seq<RecordView>)
    requires
        distinct_names(entries),
    ensures
        restored(snapshot_of(entries)) == entries,
    decreases entries.len(),
{
    let snapshot = snapshot_of(entries);
    if entries.len() == 0 {
        assert(restored(snapshot) =~= entries);
    } else {
        let shorter = entries.drop_last();
        assert(snapshot.drop_last() =~= snapshot_of(shorter));
        lemma_snapshot_round_trip(shorter);
        lemma_record_round_trip(entries.last());
        lemma_position_of(shorter, entries.last().name);
        if position_of(shorter, entries.last().name) is Some {
            let i = position_of(shorter, entries.last().name).unwrap();
            assert(entries[i].name != entries[entries.len() - 1].name);
        }
        assert(shorter.push(entries.last()) =~= entries);
    }
}

/// The views of a vector of snapshot entries.
pub open spec fn entry_views(snapshot: Seq<SnapshotEntry>) -> Seq<SnapshotEntryView> {
    snapshot.map_values(|entry: SnapshotEntry| entry@)
}

impl EntryKind {
    /// The tag under which this kind is written.
    pub fn tag(&self) -> (tag: &'static str)
        ensures
            tag@ == kind_tag(*self),
    {
        match self {
            EntryKind::File => "file",
            EntryKind::Directory => "directory",
            EntryKind::Unknown => "unknown",
        }
    }

    /// The kind that `tag` stands for.
    pub fn from_tag(tag: &str) -> (kind: EntryKind)
        ensures
            kind == kind_of_tag(tag@),
    {
        if same_text(tag, "file") {
            EntryKind::File
        } else if same_text(tag, "directory") {
            EntryKind::Directory
        } else {
            EntryKind::Unknown
        }
    }
}

/// The snapshot entry of `record`.
pub fn entry_from_record(record: &EntryRecord) -> (entry: SnapshotEntry)
    ensures
        entry@ == entry_of(record@),
{
    SnapshotEntry {
        name: record.name.clone(),
        details: SnapshotDetails {
            file_path: record.path.clone(),
            file_size: record.size,
            file_type: record.kind.tag().to_owned(),
            creation_date: record.created_at,
            file_extension: record.extension.clone(),
        },
    }
}

/// The record of the snapshot entry `entry`.
pub fn record_from_entry(entry: &SnapshotEntry) -> (record: EntryRecord)
    ensures
        record@ == record_of_entry(entry@),
{
    EntryRecord {
        name: entry.name.clone(),
        path: entry.details.file_path.clone(),
        size: entry.details.file_size,
        kind: EntryKind::from_tag(entry.details.file_type.as_str()),
        created_at: entry.details.creation_date,
        extension: entry.details.file_extension.clone(),
    }
}

/// The snapshot of `store`: one entry per record, in the order of the store.
pub fn save_index(store: &IndexStore) -> (snapshot: Vec<SnapshotEntry>)
    ensures
        entry_views(snapshot@) == snapshot_of(store@),
{
    let records = store.records();
    let mut snapshot: Vec<SnapshotEntry> = Vec::new();
    let mut i: usize = 0;
    while i < records.len()
        invariant
            i <= records.len(),
            records@.len() == store@.len(),
            forall|j: int| 0 <= j < records@.len() ==> (#[trigger] records@[j])@ == store@[j],
            snapshot@.len() == i,
            forall|j: int| 0 <= j < i ==> (#[trigger] snapshot@[j])@ == entry_of(store@[j]),
        decreases records.len() - i,
    {
        snapshot.push(entry_from_record(&records[i]));
        i += 1;
    }
    assert(entry_views(snapshot@) =~= snapshot_of(store@));
    snapshot
}

/// The store that `snapshot` restores.
pub fn restore_index(snapshot: &Vec<SnapshotEntry>) -> (store: IndexStore)
    ensures
        store.wf(),
        store@ == restored(entry_views(snapshot@)),
{
    let mut store = IndexStore::new();
    let mut i: usize = 0;
    assert(entry_views(snapshot@).take(0) =~= Seq::<SnapshotEntryView>::empty());
    while i < snapshot.len()
        invariant
            i <= snapshot.len(),
            store.wf(),
            store@ == restored(entry_views(snapshot@).take(i as int)),
        decreases snapshot.len() - i,
    {
        proof {
            let upto = entry_views(snapshot@).take(i + 1);
            assert(upto.drop_last() =~= entry_views(snapshot@).take(i as int));
            assert(upto.last() == snapshot@[i as int]@);
        }
        store.insert(record_from_entry(&snapshot[i]));
        i += 1;
    }
    assert(entry_views(snapshot@).take(i as int) =~= entry_views(snapshot@));
    store
}

/// The store that a snapshot file stands for: the store that its entries
/// restore, or an empty store where the file was missing or could not be
/// read as a snapshot (`None`).
pub fn load_index(parsed: Option<Vec<SnapshotEntry>>) -> (store: IndexStore)
    ensures
        store.wf(),
        store@ == match parsed {
            Some(snapshot) => restored(entry_views(snapshot@)),
            None => Seq::empty(),
        },
{
    match parsed {
        Some(snapshot) => restore_index(&snapshot),
        None => IndexStore::new(),
    }
}

} // verus!

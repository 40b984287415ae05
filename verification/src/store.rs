//! The index store: entry records keyed by base name.
//!
//! A store holds at most one record per name. Inserting a record whose name is
//! already present replaces the earlier record in place; a new name goes to
//! the end. The records therefore stand in the order in which their names
//! first arrived, and that is the order in which a search walks them.

use vstd::prelude::*;
use vstd::hash_map::StringHashMap;
use crate::entry::{EntryRecord, RecordView};

verus! {

/// No two records of `entries` share a name.
pub open spec fn distinct_names(entries: Seq<RecordView>) -> bool {
    forall|i: int, j: int|
        0 <= i < j < entries.len() ==> (#[trigger] entries[i]).name != (#[trigger] entries[j]).name
}

/// Where the record called `name` stands in `entries`: the position of the
/// last record with that name, or `None` where no record has it.
pub open spec fn position_of(entries: Seq<RecordView>, name: Seq<char>) -> Option<int>
    decreases entries.len(),
{
    if entries.len() == 0 {
        None
    } else if entries.last().name == name {
        Some(entries.len() - 1)
    } else {
        position_of(entries.drop_last(), name)
    }
}

/// `entries` after `record` was inserted: `record` takes the place of the
/// record that had its name, or the last place where none had.
pub open spec fn with_record(entries: Seq<RecordView>, record: RecordView) -> Seq<RecordView> {
    match position_of(entries, record.name) {
        Some(i) => entries.update(i, record),
        None => entries.push(record),
    }
}

/// `entries` read as a mapping from name to record.
pub open spec fn as_map(entries: Seq<RecordView>) -> Map<Seq<char>, RecordView> {
    Map::new(
        |name: Seq<char>| position_of(entries, name) is Some,
        |name: Seq<char>| entries[position_of(entries, name).unwrap()],
    )
}

/// What `position_of` finds: a record with the name and none after it, or
/// that no record has the name.
pub proof fn lemma_position_of(entries: Seq<RecordView>, name: Seq<char>)
    ensures
        match position_of(entries, name) {
            Some(i) => {
                &&& 0 <= i < entries.len()
                &&& entries[i].name == name
                &&& forall|j: int| i < j < entries.len() ==> (#[trigger] entries[j]).name != name
            },
            None => forall|j: int| 0 <= j < entries.len() ==> (#[trigger] entries[j]).name != name,
        },
    decreases entries.len(),
{
    if entries.len() > 0 && entries.last().name != name {
        let shorter = entries.drop_last();
        lemma_position_of(shorter, name);
        assert forall|j: int| 0 <= j < shorter.len() implies shorter[j] == entries[j] by {}
        match position_of(shorter, name) {
            Some(i) => {
                assert forall|j: int| i < j < entries.len() implies (#[trigger] entries[j]).name
                    != name by {
                    if j < shorter.len() {
                        assert(shorter[j] == entries[j]);
                    }
                }
            },
            None => {
                assert forall|j: int| 0 <= j < entries.len() implies (#[trigger] entries[j]).name
                    != name by {
                    if j < shorter.len() {
                        assert(shorter[j] == entries[j]);
                    }
                }
            },
        }
    }
}

/// Among distinct names, a record with the name is the one `position_of` finds.
pub proof fn lemma_position_of_unique(entries: Seq<RecordView>, i: int)
    requires
        distinct_names(entries),
        0 <= i < entries.len(),
    ensures
        position_of(entries, entries[i].name) == Some(i),
{
    lemma_position_of(entries, entries[i].name);
}

/// Inserting keeps the names distinct.
pub proof fn lemma_with_record_distinct(entries: Seq<RecordView>, record: RecordView)
    requires
        distinct_names(entries),
    ensures
        distinct_names(with_record(entries, record)),
{
    lemma_position_of(entries, record.name);
    let after = with_record(entries, record);
    assert forall|i: int, j: int| 0 <= i < j < after.len() implies (#[trigger] after[i]).name != (
    #[trigger] after[j]).name by {
        match position_of(entries, record.name) {
            Some(p) => {
                if i != p && j != p {
                    assert(entries[i].name != entries[j].name);
                } else if i == p {
                    assert(entries[p].name != entries[j].name);
                } else {
                    assert(entries[i].name != entries[p].name);
                }
            },
            None => {
                if j < entries.len() {
                    assert(entries[i].name != entries[j].name);
                } else {
                    assert(entries[i].name != record.name);
                }
            },
        }
    }
}

/// Inserting a record binds its name to it and leaves every other name as it was.
pub proof fn lemma_with_record_as_map(entries: Seq<RecordView>, record: RecordView)
    requires
        distinct_names(entries),
    ensures
        as_map(with_record(entries, record)) == as_map(entries).insert(record.name, record),
{
    let after = with_record(entries, record);
    lemma_with_record_distinct(entries, record);
    lemma_position_of(entries, record.name);
    assert forall|name: Seq<char>|
        position_of(after, name) is Some <==> (name == record.name || position_of(
            entries,
            name,
        ) is Some) by {
        lemma_position_of(entries, name);
        lemma_position_of(after, name);
        match position_of(after, name) {
            Some(q) => {
                if name != record.name {
                    assert(after[q] == entries[q]);
                }
            },
            None => {
                match position_of(entries, record.name) {
                    Some(p) => {
                        assert(after[p].name == record.name);
                    },
                    None => {
                        assert(after[entries.len() as int].name == record.name);
                    },
                }
                if position_of(entries, name) is Some {
                    let q = position_of(entries, name).unwrap();
                    assert(after[q].name == entries[q].name);
                }
            },
        }
    }
    assert forall|name: Seq<char>| position_of(after, name) is Some implies after[position_of(
        after,
        name,
    ).unwrap()] == (if name == record.name {
        record
    } else {
        entries[position_of(entries, name).unwrap()]
    }) by {
        lemma_position_of(entries, name);
        lemma_position_of(after, name);
        let q = position_of(after, name).unwrap();
        if name == record.name {
            match position_of(entries, record.name) {
                Some(p) => {
                    if q != p {
                        assert(after[p].name == name);
                        if q < p {
                            assert(after[q].name != after[p].name);
                        } else {
                            assert(after[p].name != after[q].name);
                        }
                    }
                },
                None => {
                    if q < entries.len() {
                        assert(after[q] == entries[q]);
                    }
                },
            }
        } else {
            assert(after[q] == entries[q]);
            let p = position_of(entries, name).unwrap();
            if p != q {
                if p < q {
                    assert(entries[p].name != entries[q].name);
                } else {
                    assert(entries[q].name != entries[p].name);
                }
            }
        }
    }
    assert(as_map(after) =~= as_map(entries).insert(record.name, record));
}

/// The slot table `slots` is an index of `entries` by name: every record's
/// name leads to its position, and every slot to a record of that name.
spec fn agree(entries: Seq<EntryRecord>, slots: Map<Seq<char>, usize>) -> bool {
    &&& forall|i: int|
        0 <= i < entries.len() ==> {
            &&& slots.contains_key((#[trigger] entries[i]).name@)
            &&& slots[entries[i].name@] == i
        }
    &&& forall|name: Seq<char>| #[trigger]
        slots.contains_key(name) ==> {
            &&& slots[name] < entries.len()
            &&& entries[slots[name] as int].name@ == name
        }
}

/// Records indexed by a slot table have distinct names.
proof fn lemma_agree_distinct(entries: Seq<EntryRecord>, slots: Map<Seq<char>, usize>)
    requires
        agree(entries, slots),
    ensures
        distinct_names(entries.map_values(|record: EntryRecord| record@)),
{
    let views = entries.map_values(|record: EntryRecord| record@);
    assert forall|i: int, j: int| 0 <= i < j < views.len() implies (#[trigger] views[i]).name != (
    #[trigger] views[j]).name by {
        assert(slots[entries[i].name@] == i);
        assert(slots[entries[j].name@] == j);
    }
}

/// An index of entry records, one per base name.
pub struct IndexStore {
    entries: Vec<EntryRecord>,
    slots: StringHashMap<usize>,
}

impl View for IndexStore {
    type V = Seq<RecordView>;

    /// The records of the store, in the order in which their names first arrived.
    closed spec fn view(&self) -> Seq<RecordView> {
        self.entries@.map_values(|record: EntryRecord| record@)
    }
}

impl IndexStore {
    /// The store is well formed: its slot table indexes its records by name.
    /// Every store that this module hands out is well formed.
    pub closed spec fn wf(&self) -> bool {
        agree(self.entries@, self.slots@)
    }

    /// The store as a mapping from name to record.
    pub open spec fn map(&self) -> Map<Seq<char>, RecordView> {
        as_map(self@)
    }

    /// No two records of a well-formed store share a name.
    pub proof fn lemma_distinct(&self)
        requires
            self.wf(),
        ensures
            distinct_names(self@),
    {
        lemma_agree_distinct(self.entries@, self.slots@);
    }

    /// An empty store.
    pub fn new() -> (store: IndexStore)
        ensures
            store.wf(),
            store@ == Seq::<RecordView>::empty(),
    {
        let store = IndexStore { entries: Vec::new(), slots: StringHashMap::new() };
        assert(store@ =~= Seq::<RecordView>::empty());
        store
    }

    /// The number of records.
    pub fn len(&self) -> (n: usize)
        ensures
            n == self@.len(),
    {
        self.entries.len()
    }

    /// Whether the store holds no record.
    pub fn is_empty(&self) -> (empty: bool)
        ensures
            empty == (self@.len() == 0),
    {
        self.entries.len() == 0
    }

    /// The records of the store, in order.
    pub fn records(&self) -> (records: &Vec<EntryRecord>)
        ensures
            records@.len() == self@.len(),
            forall|i: int| 0 <= i < records@.len() ==> (#[trigger] records@[i])@ == self@[i],
    {
        &self.entries
    }

    /// Where the record called `name` stands, if the store has one.
    fn slot_of(&self, name: &str) -> (slot: Option<usize>)
        requires
            self.wf(),
        ensures
            match slot {
                Some(i) => i < self@.len() && self@[i as int].name == name@ && position_of(
                    self@,
                    name@,
                ) == Some(i as int),
                None => position_of(self@, name@) is None,
            },
    {
        proof {
            self.lemma_distinct();
            lemma_position_of(self@, name@);
        }
        match self.slots.get(name) {
            Some(slot) => {
                let i = *slot;
                proof {
                    assert(self@[i as int].name == name@);
                    lemma_position_of_unique(self@, i as int);
                }
                Some(i)
            },
            None => {
                proof {
                    if position_of(self@, name@) is Some {
                        let i = position_of(self@, name@).unwrap();
                        assert(self.slots@.contains_key(self.entries@[i].name@));
                    }
                }
                None
            },
        }
    }

    /// Whether the store holds a record called `name`.
    pub fn contains_name(&self, name: &str) -> (found: bool)
        requires
            self.wf(),
        ensures
            found == self.map().contains_key(name@),
    {
        self.slot_of(name).is_some()
    }

    /// The record called `name`, if the store has one.
    pub fn get(&self, name: &str) -> (found: Option<&EntryRecord>)
        requires
            self.wf(),
        ensures
            match found {
                Some(record) => self.map().contains_key(name@) && record@ == self.map()[name@],
                None => !self.map().contains_key(name@),
            },
    {
        match self.slot_of(name) {
            Some(i) => Some(&self.entries[i]),
            None => None,
        }
    }

    /// Inserts `record` under its name. A record that had the name is replaced
    /// where it stood; a new name is added after all others.
    pub fn insert(&mut self, record: EntryRecord)
        requires
            old(self).wf(),
        ensures
            final(self).wf(),
            final(self)@ == with_record(old(self)@, record@),
            final(self).map() == old(self).map().insert(record@.name, record@),
    {
        proof {
            self.lemma_distinct();
            lemma_with_record_as_map(self@, record@);
            lemma_position_of(self@, record@.name);
        }
        match self.slot_of(record.name.as_str()) {
            Some(i) => {
                self.entries.set(i, record);
                assert(self@ =~= with_record(old(self)@, record@));
                assert forall|j: int| 0 <= j < self.entries@.len() implies {
                    &&& self.slots@.contains_key((#[trigger] self.entries@[j]).name@)
                    &&& self.slots@[self.entries@[j].name@] == j
                } by {
                    assert(old(self).entries@[j].name@ == self.entries@[j].name@);
                }
                assert forall|name: Seq<char>| #[trigger]
                    self.slots@.contains_key(name) implies {
                    &&& self.slots@[name] < self.entries@.len()
                    &&& self.entries@[self.slots@[name] as int].name@ == name
                } by {
                    let j = self.slots@[name] as int;
                    assert(old(self).entries@[j].name@ == self.entries@[j].name@);
                }
            },
            None => {
                let slot = self.entries.len();
                self.slots.insert(record.name.clone(), slot);
                self.entries.push(record);
                assert(self@ =~= with_record(old(self)@, record@));
                assert forall|j: int| 0 <= j < self.entries@.len() implies {
                    &&& self.slots@.contains_key((#[trigger] self.entries@[j]).name@)
                    &&& self.slots@[self.entries@[j].name@] == j
                } by {
                    if j < slot {
                        assert(old(self).entries@[j] == self.entries@[j]);
                        assert(old(self)@[j].name != record@.name);
                    }
                }
                assert forall|name: Seq<char>| #[trigger]
                    self.slots@.contains_key(name) implies {
                    &&& self.slots@[name] < self.entries@.len()
                    &&& self.entries@[self.slots@[name] as int].name@ == name
                } by {
                    if name != record@.name {
                        let j = self.slots@[name] as int;
                        assert(old(self).entries@[j] == self.entries@[j]);
                    }
                }
            },
        }
    }
}

} // verus!

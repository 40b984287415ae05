//! Entry records: what the index knows about one file or directory.

use vstd::prelude::*;
use crate::text::{find_last, last_index_of, lemma_last_index_of, to_chars};

verus! {

/// What kind of file-system object an entry is.
#[derive(Clone, Copy, Debug, PartialEq, Eq, Structural)]
pub enum EntryKind {
    File,
    Directory,
    Unknown,
}

/// A point in time, as seconds and nanoseconds since the Unix epoch.
#[derive(Clone, Copy, Debug, PartialEq, Eq, Structural)]
pub struct Timestamp {
    pub secs: u64,
    pub nanos: u32,
}

/// One indexed file-system object: its base name, where it lives, and its metadata.
#[derive(Debug)]
pub struct EntryRecord {
    /// Base name, extension included.
    pub name: String,
    /// Full path of the object.
    pub path: String,
    /// Length in bytes.
    pub size: u64,
    pub kind: EntryKind,
    /// Creation time; `None` where the file system cannot report one.
    pub created_at: Option<Timestamp>,
    /// Extension of the name, without the dot; empty where the name has none.
    pub extension: String,
}

/// The mathematical content of an [`EntryRecord`].
pub struct RecordView {
    pub name: Seq<char>,
    pub path: Seq<char>,
    pub size: u64,
    pub kind: EntryKind,
    pub created_at: Option<Timestamp>,
    pub extension: Seq<char>,
}

impl View for EntryRecord {
    type V = RecordView;

    open spec fn view(&self) -> RecordView {
        RecordView {
            name: self.name@,
            path: self.path@,
            size: self.size,
            kind: self.kind,
            created_at: self.created_at,
            extension: self.extension@,
        }
    }
}

/// Index of the last `.` in `name`, or -1 where it holds none.
pub open spec fn last_dot(name: Seq<char>) -> int {
    last_index_of(name, '.')
}

/// The names `.` and `..` stand for a directory and its parent; they name no file.
pub open spec fn is_dot_name(name: Seq<char>) -> bool {
    name == seq!['.'] || name == seq!['.', '.']
}

/// The stem of a base name: the name without its extension.
///
/// The extension starts at the last `.` of the name. A name without a dot, or
/// whose only dot is its first character (a hidden file such as `.profile`),
/// has no extension and is its own stem. `.` and `..` have an empty stem.
pub open spec fn stem_of(name: Seq<char>) -> Seq<char> {
    if is_dot_name(name) {
        Seq::empty()
    } else if last_dot(name) > 0 {
        name.take(last_dot(name))
    } else {
        name
    }
}

/// The extension of a base name: what follows its last `.`, or nothing where
/// the name has no extension (see [`stem_of`]).
pub open spec fn extension_of(name: Seq<char>) -> Seq<char> {
    if !is_dot_name(name) && last_dot(name) > 0 {
        name.skip(last_dot(name) + 1)
    } else {
        Seq::empty()
    }
}

/// A name with an extension is its stem, a dot, and its extension.
pub proof fn lemma_stem_dot_extension(name: Seq<char>)
    requires
        !is_dot_name(name),
        last_dot(name) > 0,
    ensures
        name == stem_of(name) + seq!['.'] + extension_of(name),
{
    lemma_last_index_of(name, '.');
    assert(name =~= stem_of(name) + seq!['.'] + extension_of(name));
}

/// Tests whether `chars` spell `.` or `..`.
fn spells_dot_name(chars: &Vec<char>) -> (yes: bool)
    ensures
        yes == is_dot_name(chars@),
{
    if chars.len() == 1 {
        let yes = chars[0] == '.';
        assert(yes ==> chars@ =~= seq!['.']);
        assert(!yes ==> chars@[0] != seq!['.'][0]);
        yes
    } else if chars.len() == 2 {
        let yes = chars[0] == '.' && chars[1] == '.';
        assert(yes ==> chars@ =~= seq!['.', '.']);
        assert(!yes ==> chars@[0] != seq!['.', '.'][0] || chars@[1] != seq!['.', '.'][1]);
        yes
    } else {
        false
    }
}

/// Where the extension of the name spelled by `chars` begins: the index of
/// the dot before it, if the name has an extension.
fn extension_dot(chars: &Vec<char>) -> (dot: Option<usize>)
    ensures
        match dot {
            Some(i) => !is_dot_name(chars@) && i as int == last_dot(chars@) && 0 < i < chars@.len(),
            None => is_dot_name(chars@) || last_dot(chars@) <= 0,
        },
{
    proof {
        lemma_last_index_of(chars@, '.');
        assert(chars@.take(chars@.len() as int) =~= chars@);
    }
    if spells_dot_name(chars) {
        return None;
    }
    match find_last(chars, chars.len(), '.') {
        Some(i) => if i > 0 {
            Some(i)
        } else {
            None
        },
        None => None,
    }
}

/// The stem of `name`: the name without its extension.
pub fn file_stem(name: &str) -> (stem: String)
    ensures
        stem@ == stem_of(name@),
{
    let chars = to_chars(name);
    if spells_dot_name(&chars) {
        return String::new();
    }
    match extension_dot(&chars) {
        Some(dot) => {
            assert(name@.subrange(0, dot as int) =~= name@.take(dot as int));
            name.substring_char(0, dot).to_owned()
        },
        None => name.to_owned(),
    }
}

/// The extension of `name`, without its dot; empty where the name has none.
pub fn file_extension(name: &str) -> (extension: String)
    ensures
        extension@ == extension_of(name@),
{
    let chars = to_chars(name);
    let end = chars.len();
    match extension_dot(&chars) {
        Some(dot) => {
            assert(name@.subrange(dot + 1, end as int) =~= name@.skip(dot + 1));
            name.substring_char(dot + 1, end).to_owned()
        },
        None => String::new(),
    }
}

impl EntryKind {
    /// The kind of an object from the two flags of its metadata: a directory,
    /// else a regular file, else unknown (a symbolic link, a device, a socket).
    pub fn classify(is_dir: bool, is_file: bool) -> (kind: EntryKind)
        ensures
            kind == (if is_dir {
                EntryKind::Directory
            } else if is_file {
                EntryKind::File
            } else {
                EntryKind::Unknown
            }),
    {
        if is_dir {
            EntryKind::Directory
        } else if is_file {
            EntryKind::File
        } else {
            EntryKind::Unknown
        }
    }
}

impl EntryRecord {
    /// A record for the object called `name` at `path`; its extension is read
    /// off the name.
    pub fn new(
        name: String,
        path: String,
        size: u64,
        kind: EntryKind,
        created_at: Option<Timestamp>,
    ) -> (record: EntryRecord)
        ensures
            record@ == (RecordView {
                name: name@,
                path: path@,
                size,
                kind,
                created_at,
                extension: extension_of(name@),
            }),
    {
        let extension = file_extension(name.as_str());
        EntryRecord { name, path, size, kind, created_at, extension }
    }

    /// The stem of this record's name, the text that queries are matched against.
    pub fn stem(&self) -> (stem: String)
        ensures
            stem@ == stem_of(self@.name),
    {
        file_stem(self.name.as_str())
    }
}

impl Clone for EntryRecord {
    fn clone(&self) -> (copy: EntryRecord)
        ensures
            copy@ == self@,
    {
        EntryRecord {
            name: self.name.clone(),
            path: self.path.clone(),
            size: self.size,
            kind: self.kind,
            created_at: self.created_at,
            extension: self.extension.clone(),
        }
    }
}

} // verus!

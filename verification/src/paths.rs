//! Paths as the crawler sees them: text in which `/` parts one segment from the next.

use vstd::prelude::*;
use vstd::string::StringExecFns;
use crate::text::{find_last, last_index_of, lemma_last_index_of, to_chars};

verus! {

/// The length of `path` once the slashes at its end are dropped.
pub open spec fn trimmed_len(path: Seq<char>) -> int
    decreases path.len(),
{
    if path.len() > 0 && path.last() == '/' {
        trimmed_len(path.drop_last())
    } else {
        path.len() as int
    }
}

/// The last segment of `path`: what follows its last `/`, slashes at the end
/// of the path set aside. The last segment of `/home/ann/Library/` is `Library`.
pub open spec fn last_segment(path: Seq<char>) -> Seq<char> {
    let body = path.take(trimmed_len(path));
    body.skip(last_index_of(body, '/') + 1)
}

/// The path of the entry called `name` in the directory `dir`: the two joined
/// by one `/`, which is left out where `dir` is empty or brings its own.
pub open spec fn child_path(dir: Seq<char>, name: Seq<char>) -> Seq<char> {
    if dir.len() == 0 {
        name
    } else if dir.last() == '/' {
        dir + name
    } else {
        dir + seq!['/'] + name
    }
}

/// The directory reached from `root` by going down through `names` in turn.
pub open spec fn descend(root: Seq<char>, names: Seq<Seq<char>>) -> Seq<char>
    decreases names.len(),
{
    if names.len() == 0 {
        root
    } else {
        child_path(descend(root, names.drop_last()), names.last())
    }
}

/// `name` can name a directory entry: it is not empty and holds no `/`.
pub open spec fn is_base_name(name: Seq<char>) -> bool {
    name.len() > 0 && forall|i: int| 0 <= i < name.len() ==> name[i] != '/'
}

/// `trimmed_len` stops at the last character that is no slash.
pub proof fn lemma_trimmed_len(path: Seq<char>)
    ensures
        0 <= trimmed_len(path) <= path.len(),
        trimmed_len(path) > 0 ==> path[trimmed_len(path) - 1] != '/',
        forall|j: int| trimmed_len(path) <= j < path.len() ==> path[j] == '/',
    decreases path.len(),
{
    if path.len() > 0 && path.last() == '/' {
        let shorter = path.drop_last();
        lemma_trimmed_len(shorter);
        assert forall|j: int| trimmed_len(path) <= j < path.len() implies path[j] == '/' by {
            if j < shorter.len() {
                assert(shorter[j] == path[j]);
            }
        }
        if trimmed_len(path) > 0 {
            assert(shorter[trimmed_len(path) - 1] == path[trimmed_len(path) - 1]);
        }
    }
}

/// Text without `mark` at the end of a sequence does not move its last `mark`.
proof fn lemma_last_index_of_append(head: Seq<char>, tail: Seq<char>, mark: char)
    requires
        forall|i: int| 0 <= i < tail.len() ==> tail[i] != mark,
    ensures
        last_index_of(head + tail, mark) == last_index_of(head, mark),
    decreases tail.len(),
{
    if tail.len() == 0 {
        assert(head + tail =~= head);
    } else {
        let whole = head + tail;
        assert(whole.last() == tail.last());
        assert(whole.drop_last() =~= head + tail.drop_last());
        lemma_last_index_of_append(head, tail.drop_last(), mark);
    }
}

/// The last segment of an entry's path is the entry's name.
pub proof fn lemma_child_last_segment(dir: Seq<char>, name: Seq<char>)
    requires
        is_base_name(name),
    ensures
        last_segment(child_path(dir, name)) == name,
{
    let child = child_path(dir, name);
    lemma_trimmed_len(child);
    assert(child.last() == name.last());
    assert(trimmed_len(child) == child.len());
    assert(child.take(child.len() as int) =~= child);
    if dir.len() == 0 {
        lemma_last_index_of_append(Seq::<char>::empty(), name, '/');
        assert(Seq::<char>::empty() + name =~= name);
        assert(child.skip(0) =~= child);
    } else {
        let head = if dir.last() == '/' {
            dir
        } else {
            dir + seq!['/']
        };
        assert(child =~= head + name);
        lemma_last_index_of_append(head, name, '/');
        assert(head.last() == '/');
        assert(last_index_of(head, '/') == head.len() - 1);
        assert(child.skip(head.len() as int) =~= name);
    }
}

/// A directory's path begins the path of each of its entries.
pub proof fn lemma_child_under_dir(dir: Seq<char>, name: Seq<char>)
    ensures
        dir.is_prefix_of(child_path(dir, name)),
{
    let child = child_path(dir, name);
    assert(child.subrange(0, dir.len() as int) =~= dir);
}

/// Whatever is reached from `root` lies under `root`: its path begins with `root`.
pub proof fn lemma_descend_under_root(root: Seq<char>, names: Seq<Seq<char>>)
    ensures
        root.is_prefix_of(descend(root, names)),
    decreases names.len(),
{
    if names.len() == 0 {
        assert(root.subrange(0, root.len() as int) =~= root);
    } else {
        let parent = descend(root, names.drop_last());
        lemma_descend_under_root(root, names.drop_last());
        lemma_child_under_dir(parent, names.last());
        let child = child_path(parent, names.last());
        assert(child.subrange(0, root.len() as int) =~= parent.subrange(0, root.len() as int));
    }
}

/// Every name of `names` can name a directory entry.
pub open spec fn are_base_names(names: Seq<Seq<char>>) -> bool {
    forall|k: int| 0 <= k < names.len() ==> is_base_name(#[trigger] names[k])
}

/// What stands before the name in the path of an entry of `dir`: the
/// directory with one `/` at its end, or nothing for the empty directory.
pub open spec fn path_head(dir: Seq<char>) -> Seq<char> {
    if dir.len() == 0 || dir.last() == '/' {
        dir
    } else {
        dir + seq!['/']
    }
}

/// `dir` is the root or lies below it: it is the root itself, or it is
/// longer than the root and does not end with a `/`.
pub open spec fn is_root_or_below(dir: Seq<char>, root: Seq<char>) -> bool {
    dir == root || (dir.len() > root.len() && dir.last() != '/')
}

/// What is reached from the root through base names is the root or lies below it.
pub proof fn lemma_descend_below(root: Seq<char>, names: Seq<Seq<char>>)
    requires
        are_base_names(names),
    ensures
        is_root_or_below(descend(root, names), root),
        names.len() > 0 ==> descend(root, names) != root,
    decreases names.len(),
{
    if names.len() > 0 {
        let parent = descend(root, names.drop_last());
        let name = names.last();
        assert(is_base_name(names[names.len() - 1]));
        lemma_descend_under_root(root, names.drop_last());
        let child = child_path(parent, name);
        assert(child =~= path_head(parent) + name);
        assert(child.last() == name.last());
    }
}

/// Two entries with the same path have the same name and lie in the same
/// directory, where both directories are the root or lie below it.
pub proof fn lemma_child_path_injective(
    root: Seq<char>,
    first_dir: Seq<char>,
    first_name: Seq<char>,
    second_dir: Seq<char>,
    second_name: Seq<char>,
)
    requires
        is_base_name(first_name),
        is_base_name(second_name),
        is_root_or_below(first_dir, root),
        is_root_or_below(second_dir, root),
        child_path(first_dir, first_name) == child_path(second_dir, second_name),
    ensures
        first_name == second_name,
        first_dir == second_dir,
{
    let path = child_path(first_dir, first_name);
    lemma_child_last_segment(first_dir, first_name);
    lemma_child_last_segment(second_dir, second_name);
    let name = first_name;
    let first_head = path_head(first_dir);
    let second_head = path_head(second_dir);
    assert(path =~= first_head + name);
    assert(path =~= second_head + name);
    assert(first_head =~= path.subrange(0, path.len() - name.len()));
    assert(second_head =~= path.subrange(0, path.len() - name.len()));
    if first_dir != second_dir {
        let (slashed, bare) = if first_dir.len() > 0 && first_dir.last() == '/' {
            (first_dir, second_dir)
        } else {
            (second_dir, first_dir)
        };
        if first_dir.len() == 0 || second_dir.len() == 0 {
            assert(first_head.len() == second_head.len());
        } else if first_dir.last() != '/' && second_dir.last() != '/' {
            assert(first_dir =~= first_head.drop_last());
            assert(second_dir =~= second_head.drop_last());
        } else {
            // one ends with a slash and so is the root; the other, with a
            // slash added, would have to be the root too
            assert(slashed == root);
            assert(slashed =~= bare + seq!['/']);
        }
    }
}

/// Two trails of base names that lead to the same place are the same trail.
pub proof fn lemma_descend_injective(root: Seq<char>, first: Seq<Seq<char>>, second: Seq<Seq<char>>)
    requires
        are_base_names(first),
        are_base_names(second),
        descend(root, first) == descend(root, second),
    ensures
        first == second,
    decreases first.len(),
{
    lemma_descend_below(root, first);
    lemma_descend_below(root, second);
    if first.len() == 0 || second.len() == 0 {
        assert(first =~= second);
    } else {
        let first_before = first.drop_last();
        let second_before = second.drop_last();
        assert(is_base_name(first[first.len() - 1]));
        assert(is_base_name(second[second.len() - 1]));
        assert(are_base_names(first_before)) by {
            assert forall|k: int| 0 <= k < first_before.len() implies is_base_name(
                #[trigger] first_before[k],
            ) by {
                assert(first_before[k] == first[k]);
            }
        }
        assert(are_base_names(second_before)) by {
            assert forall|k: int| 0 <= k < second_before.len() implies is_base_name(
                #[trigger] second_before[k],
            ) by {
                assert(second_before[k] == second[k]);
            }
        }
        lemma_descend_below(root, first_before);
        lemma_descend_below(root, second_before);
        lemma_child_path_injective(
            root,
            descend(root, first_before),
            first.last(),
            descend(root, second_before),
            second.last(),
        );
        lemma_descend_injective(root, first_before, second_before);
        assert(first =~= first_before.push(first.last()));
        assert(second =~= second_before.push(second.last()));
    }
}

/// The last segment of `path`.
pub fn last_segment_of(path: &str) -> (segment: String)
    ensures
        segment@ == last_segment(path@),
{
    let chars = to_chars(path);
    let mut end: usize = chars.len();
    assert(chars@.take(end as int) =~= chars@);
    while end > 0 && chars[end - 1] == '/'
        invariant
            end <= chars@.len(),
            trimmed_len(chars@) == trimmed_len(chars@.take(end as int)),
        decreases end,
    {
        assert(chars@.take(end as int).drop_last() =~= chars@.take(end - 1));
        end -= 1;
    }
    proof {
        lemma_last_index_of(chars@.take(end as int), '/');
    }
    let start: usize = match find_last(&chars, end, '/') {
        Some(slash) => slash + 1,
        None => 0,
    };
    assert(path@.subrange(start as int, end as int) =~= path@.take(end as int).skip(start as int));
    path.substring_char(start, end).to_owned()
}

/// The path of the entry called `name` in the directory `dir`.
pub fn join_child(dir: &str, name: &str) -> (path: String)
    ensures
        path@ == child_path(dir@, name@),
{
    broadcast use vstd::string::group_string_axioms;

    let mut last: Option<char> = None;
    for c in it: dir.chars()
        invariant
            it.seq() == dir@,
            match last {
                Some(l) => it.index() > 0 && l == dir@[it.index() - 1],
                None => it.index() == 0,
            },
    {
        last = Some(c);
    }
    let mut path = dir.to_owned();
    match last {
        None => {
            assert(path@ + name@ =~= name@);
        },
        Some(l) => {
            if l != '/' {
                proof {
                    reveal_strlit("/");
                    assert("/"@ =~= seq!['/']);
                }
                path.append("/");
            }
        },
    }
    path.append(name);
    path
}

} // verus!

//! Character-level helpers on strings.
//!
//! Contracts in this crate speak of a string through its view, the sequence of
//! its characters. The helpers here turn a string into an indexable vector of
//! characters and answer the positional questions the rest of the crate asks.

use vstd::prelude::*;
use vstd::std_specs::iter::IteratorSpec;

verus! {

/// The lower-case form of a sequence of characters, as Unicode defines it.
///
/// The mapping is a fixed table of the standard library; it is named here and
/// left uninterpreted, so that contracts can say "the lower-case form of the
/// query" without restating the Unicode tables.
pub uninterp spec fn lowercase_of(s: Seq<char>) -> Seq<char>;

/// Lower-cases `s` with `str::to_lowercase`.
///
/// Trusted: the result is what the standard library computes for `s`; the
/// contract only gives that result its name.
#[verifier::external_body]
pub(crate) fn to_lowercase(s: &str) -> (lower: String)
    ensures
        lower@ == lowercase_of(s@),
{
    s.to_lowercase()
}

/// The characters of `s`, in order, in a vector that can be indexed in constant time.
pub fn to_chars(s: &str) -> (chars: Vec<char>)
    ensures
        chars@ == s@,
{
    broadcast use vstd::string::group_string_axioms;

    let mut chars: Vec<char> = Vec::new();
    for c in it: s.chars()
        invariant
            it.seq() == s@,
            chars@ == s@.take(it.index()),
    {
        chars.push(c);
    }
    chars
}

/// `pattern` stands in `text` at position `at`: the `pattern.len()` characters
/// of `text` from `at` on are those of `pattern`.
pub open spec fn occurs_at(text: Seq<char>, pattern: Seq<char>, at: int) -> bool {
    &&& 0 <= at
    &&& at + pattern.len() <= text.len()
    &&& text.subrange(at, at + pattern.len()) == pattern
}

/// Tests whether `pattern` stands in `text` at position `at`.
pub fn matches_at(text: &Vec<char>, pattern: &Vec<char>, at: usize) -> (found: bool)
    ensures
        found == occurs_at(text@, pattern@, at as int),
{
    if at > text.len() || pattern.len() > text.len() - at {
        return false;
    }
    let mut k: usize = 0;
    while k < pattern.len()
        invariant
            k <= pattern.len(),
            at + pattern.len() <= text.len(),
            forall|j: int| 0 <= j < k ==> text@[at + j] == pattern@[j],
        decreases pattern.len() - k,
    {
        if text[at + k] != pattern[k] {
            assert(text@.subrange(at as int, at + pattern.len())[k as int] != pattern@[k as int]);
            return false;
        }
        k += 1;
    }
    assert(text@.subrange(at as int, at + pattern.len()) =~= pattern@);
    true
}

/// Index of the last `mark` in `text`, or -1 where `text` holds none.
pub open spec fn last_index_of(text: Seq<char>, mark: char) -> int
    decreases text.len(),
{
    if text.len() == 0 {
        -1
    } else if text.last() == mark {
        text.len() - 1
    } else {
        last_index_of(text.drop_last(), mark)
    }
}

/// `last_index_of` finds a `mark`, and no `mark` follows the one it finds.
pub proof fn lemma_last_index_of(text: Seq<char>, mark: char)
    ensures
        -1 <= last_index_of(text, mark) < text.len(),
        last_index_of(text, mark) >= 0 ==> text[last_index_of(text, mark)] == mark,
        forall|j: int| last_index_of(text, mark) < j < text.len() ==> text[j] != mark,
    decreases text.len(),
{
    if text.len() > 0 && text.last() != mark {
        let shorter = text.drop_last();
        lemma_last_index_of(shorter, mark);
        assert forall|j: int| last_index_of(text, mark) < j < text.len() implies text[j]
            != mark by {
            if j < shorter.len() {
                assert(shorter[j] == text[j]);
            }
        }
    }
}

/// Finds the last `mark` among the first `end` characters of `chars`.
pub fn find_last(chars: &Vec<char>, end: usize, mark: char) -> (found: Option<usize>)
    requires
        end <= chars@.len(),
    ensures
        match found {
            Some(i) => i < end && i as int == last_index_of(chars@.take(end as int), mark),
            None => last_index_of(chars@.take(end as int), mark) == -1,
        },
{
    let mut stop: usize = end;
    while stop > 0
        invariant
            stop <= end <= chars@.len(),
            last_index_of(chars@.take(end as int), mark) == last_index_of(
                chars@.take(stop as int),
                mark,
            ),
        decreases stop,
    {
        assert(chars@.take(stop as int).drop_last() =~= chars@.take(stop - 1));
        if chars[stop - 1] == mark {
            return Some(stop - 1);
        }
        stop -= 1;
    }
    None
}

/// Tests whether two strings hold the same characters.
pub fn same_text(a: &str, b: &str) -> (same: bool)
    ensures
        same == (a@ == b@),
{
    broadcast use vstd::string::group_string_axioms;

    let mut rest_a = a.chars();
    let mut rest_b = b.chars();
    let ghost mut n: int = 0;
    loop
        invariant
            0 <= n <= a@.len(),
            n <= b@.len(),
            rest_a.remaining() == a@.skip(n),
            rest_b.remaining() == b@.skip(n),
            a@.take(n) == b@.take(n),
        decreases a@.len() - n,
    {
        let next_a = rest_a.next();
        let next_b = rest_b.next();
        match (next_a, next_b) {
            (None, None) => {
                assert(a@ =~= a@.take(n));
                assert(b@ =~= b@.take(n));
                return true;
            },
            (Some(x), Some(y)) => {
                if x != y {
                    assert(a@[n] != b@[n]);
                    return false;
                }
                proof {
                    assert(a@.take(n + 1) =~= a@.take(n).push(x));
                    assert(b@.take(n + 1) =~= b@.take(n).push(y));
                    assert(a@.skip(n).drop_first() =~= a@.skip(n + 1));
                    assert(b@.skip(n).drop_first() =~= b@.skip(n + 1));
                    n = n + 1;
                }
            },
            _ => {
                assert(a@.len() != b@.len());
                return false;
            },
        }
    }
}

/// Tests whether `text` begins with `prefix`. The empty string begins every string.
pub fn starts_with(text: &str, prefix: &str) -> (found: bool)
    ensures
        found == prefix@.is_prefix_of(text@),
{
    broadcast use vstd::string::group_string_axioms;

    let mut rest_text = text.chars();
    let mut rest_prefix = prefix.chars();
    let ghost mut n: int = 0;
    loop
        invariant
            0 <= n <= text@.len(),
            n <= prefix@.len(),
            rest_text.remaining() == text@.skip(n),
            rest_prefix.remaining() == prefix@.skip(n),
            text@.take(n) == prefix@.take(n),
        decreases prefix@.len() - n,
    {
        let wanted = match rest_prefix.next() {
            Some(wanted) => wanted,
            None => {
                assert(prefix@ =~= prefix@.take(n));
                assert(text@.subrange(0, n) =~= text@.take(n));
                return true;
            },
        };
        match rest_text.next() {
            Some(given) => {
                if given != wanted {
                    proof {
                        if prefix@.len() <= text@.len() {
                            assert(text@.subrange(0, prefix@.len() as int)[n] == given);
                        }
                    }
                    return false;
                }
                proof {
                    assert(text@.take(n + 1) =~= text@.take(n).push(given));
                    assert(prefix@.take(n + 1) =~= prefix@.take(n).push(wanted));
                    assert(text@.skip(n).drop_first() =~= text@.skip(n + 1));
                    assert(prefix@.skip(n).drop_first() =~= prefix@.skip(n + 1));
                    n = n + 1;
                }
            },
            None => {
                return false;
            },
        }
    }
}

} // verus!

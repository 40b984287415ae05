//! Highlighting: marking in a file name every place where the query stands.

use vstd::prelude::*;
use vstd::string::StringExecFns;
use crate::text::{matches_at, occurs_at, to_chars};

verus! {

/// The mark that begins a highlighted stretch: bold green on a terminal.
pub const HIGHLIGHT_COLOR_START: &'static str = "\x1b[1;32m";

/// The mark that ends a highlighted stretch.
pub const HIGHLIGHT_COLOR_END: &'static str = "\x1b[0m";

/// `text` from position `from` on, with every occurrence of `query` between
/// the two marks.
///
/// The text is read from left to right. Where the query stands at the
/// current position it is marked, and reading goes on behind it, so that
/// marked stretches do not overlap. The empty query stands before every
/// character and at the end of the text.
pub open spec fn highlighted_from(text: Seq<char>, query: Seq<char>, from: int) -> Seq<char>
    decreases text.len() - from,
{
    if from >= text.len() {
        if query.len() == 0 {
            HIGHLIGHT_COLOR_START@ + HIGHLIGHT_COLOR_END@
        } else {
            Seq::empty()
        }
    } else if occurs_at(text, query, from) {
        if query.len() == 0 {
            HIGHLIGHT_COLOR_START@ + HIGHLIGHT_COLOR_END@ + seq![text[from]] + highlighted_from(
                text,
                query,
                from + 1,
            )
        } else {
            HIGHLIGHT_COLOR_START@ + query + HIGHLIGHT_COLOR_END@ + highlighted_from(
                text,
                query,
                from + query.len(),
            )
        }
    } else {
        seq![text[from]] + highlighted_from(text, query, from + 1)
    }
}

/// `text` with every occurrence of `query` between the two marks.
pub open spec fn highlighted(text: Seq<char>, query: Seq<char>) -> Seq<char> {
    highlighted_from(text, query, 0)
}

/// Marks every occurrence of `query` in `filename`.
pub fn highlight_match(filename: &str, query: &str) -> (result: String)
    ensures
        result@ == highlighted(filename@, query@),
{
    let text = to_chars(filename);
    let pattern = to_chars(query);
    let mut result = String::new();
    let mut last: usize = 0;
    let mut i: usize = 0;
    assert(result@ + text@.subrange(0, 0) + highlighted_from(text@, pattern@, 0) =~= highlighted(
        text@,
        pattern@,
    ));
    while i < text.len()
        invariant
            last <= i <= text@.len(),
            text@ == filename@,
            pattern@ == query@,
            result@ + text@.subrange(last as int, i as int) + highlighted_from(
                text@,
                pattern@,
                i as int,
            ) == highlighted(text@, pattern@),
        decreases text@.len() - i,
    {
        let ghost before = result@;
        let ghost rest = highlighted_from(text@, pattern@, i as int);
        let ghost unmarked = text@.subrange(last as int, i as int);
        if matches_at(&text, &pattern, i) {
            result.append(filename.substring_char(last, i));
            result.append(HIGHLIGHT_COLOR_START);
            if pattern.len() == 0 {
                result.append(HIGHLIGHT_COLOR_END);
                last = i;
                i += 1;
                assert(result@ + text@.subrange(last as int, i as int) + highlighted_from(
                    text@,
                    pattern@,
                    i as int,
                ) =~= before + unmarked + rest) by {
                    assert(text@.subrange(last as int, i as int) =~= seq![text@[last as int]]);
                }
            } else {
                result.append(query);
                result.append(HIGHLIGHT_COLOR_END);
                i += pattern.len();
                last = i;
                assert(result@ + text@.subrange(last as int, i as int) + highlighted_from(
                    text@,
                    pattern@,
                    i as int,
                ) =~= before + unmarked + rest);
            }
        } else {
            i += 1;
            assert(result@ + text@.subrange(last as int, i as int) + highlighted_from(
                text@,
                pattern@,
                i as int,
            ) =~= before + unmarked + rest) by {
                assert(text@.subrange(last as int, i as int) =~= unmarked + seq![text@[i - 1]]);
            }
        }
    }
    let ghost before = result@;
    result.append(filename.substring_char(last, i));
    if pattern.len() == 0 {
        result.append(HIGHLIGHT_COLOR_START);
        result.append(HIGHLIGHT_COLOR_END);
    }
    assert(result@ =~= before + text@.subrange(last as int, i as int) + highlighted_from(
        text@,
        pattern@,
        i as int,
    ));
    result
}

} // verus!

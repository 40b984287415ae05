use rust_finder::highlight::{highlight_match, HIGHLIGHT_COLOR_END, HIGHLIGHT_COLOR_START};

fn by_match_indices(filename: &str, query: &str) -> String {
    let mut result = String::new();
    let mut last_index = 0;
    for (start, matched) in filename.match_indices(query) {
        let end = start + matched.len();
        result.push_str(&filename[last_index..start]);
        result.push_str("\x1b[1;32m");
        result.push_str(&filename[start..end]);
        result.push_str("\x1b[0m");
        last_index = end;
    }
    result.push_str(&filename[last_index..]);
    result
}

#[test]
fn marks_are_the_terminal_codes_for_bold_green_and_reset() {
    assert_eq!(HIGHLIGHT_COLOR_START, "\x1b[1;32m");
    assert_eq!(HIGHLIGHT_COLOR_END, "\x1b[0m");
}

#[test]
fn highlight_wraps_the_match() {
    assert_eq!(highlight_match("report.pdf", "port"), "re\x1b[1;32mport\x1b[0m.pdf");
    assert_eq!(highlight_match("report", "report"), "\x1b[1;32mreport\x1b[0m");
}

#[test]
fn highlight_without_a_match_gives_the_name_back() {
    assert_eq!(highlight_match("report.pdf", "xyz"), "report.pdf");
    assert_eq!(highlight_match("", "x"), "");
    assert_eq!(highlight_match("ab", "abc"), "ab");
}

#[test]
fn highlight_marks_every_occurrence() {
    assert_eq!(
        highlight_match("abcabc", "bc"),
        "a\x1b[1;32mbc\x1b[0ma\x1b[1;32mbc\x1b[0m"
    );
}

#[test]
fn highlight_does_not_overlap() {
    assert_eq!(highlight_match("ababa", "aba"), "\x1b[1;32maba\x1b[0mba");
    assert_eq!(highlight_match("aaaa", "aa"), "\x1b[1;32maa\x1b[0m\x1b[1;32maa\x1b[0m");
    assert_eq!(highlight_match("aaa", "aa"), "\x1b[1;32maa\x1b[0ma");
}

#[test]
fn highlight_is_case_sensitive() {
    assert_eq!(highlight_match("Report", "report"), "Report");
}

#[test]
fn empty_query_stands_before_every_character_and_at_the_end() {
    assert_eq!(
        highlight_match("ab", ""),
        "\x1b[1;32m\x1b[0ma\x1b[1;32m\x1b[0mb\x1b[1;32m\x1b[0m"
    );
    assert_eq!(highlight_match("", ""), "\x1b[1;32m\x1b[0m");
}

#[test]
fn highlight_agrees_with_match_indices() {
    let names = ["report.pdf", "ababa", "aaaa", "", "a", "日本語の本.txt", "übermäßig", "a.b.c"];
    let queries = ["", "a", "aa", "aba", "b", ".", "本", "ß", "pdf", "report.pdf", "xyz"];
    for name in names {
        for query in queries {
            assert_eq!(
                highlight_match(name, query),
                by_match_indices(name, query),
                "{:?} / {:?}",
                name,
                query
            );
        }
    }
}

use rust_finder::text::{find_last, matches_at, same_text, starts_with, to_chars};

#[test]
fn to_chars_gives_the_characters_in_order() {
    assert_eq!(to_chars("abc"), vec!['a', 'b', 'c']);
    assert_eq!(to_chars(""), Vec::<char>::new());
    assert_eq!(to_chars("né"), vec!['n', 'é']);
}

#[test]
fn same_text_compares_character_by_character() {
    assert!(same_text("", ""));
    assert!(same_text("abc", "abc"));
    assert!(!same_text("abc", "abd"));
    assert!(!same_text("abc", "ab"));
    assert!(!same_text("ab", "abc"));
    assert!(same_text("日本", "日本"));
}

#[test]
fn starts_with_tests_prefixes() {
    assert!(starts_with("report", "rep"));
    assert!(starts_with("report", ""));
    assert!(starts_with("report", "report"));
    assert!(!starts_with("report", "reports"));
    assert!(!starts_with("report", "ep"));
}

#[test]
fn matches_at_tests_one_position() {
    let text = to_chars("ababa");
    let pattern = to_chars("aba");
    assert!(matches_at(&text, &pattern, 0));
    assert!(!matches_at(&text, &pattern, 1));
    assert!(matches_at(&text, &pattern, 2));
    assert!(!matches_at(&text, &pattern, 3));
    assert!(!matches_at(&text, &pattern, 9));
    assert!(matches_at(&text, &Vec::new(), 5));
    assert!(!matches_at(&text, &Vec::new(), 6));
}

#[test]
fn find_last_finds_the_last_mark() {
    let text = to_chars("a.b.c");
    assert_eq!(find_last(&text, 5, '.'), Some(3));
    assert_eq!(find_last(&text, 3, '.'), Some(1));
    assert_eq!(find_last(&text, 1, '.'), None);
    assert_eq!(find_last(&text, 5, '/'), None);
}

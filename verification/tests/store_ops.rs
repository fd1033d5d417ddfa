use oneliners::ops::{
    get_oneliner, line_exists_in_file, list_oneliners, parse_selection, store_oneliner,
    GetOutcome, ListOutcome, StoreOutcome,
};
use oneliners::path::oneliners_path;
use oneliners::text::{contains_str, parse_usize, str_eq, trim};

fn entries_of(r: ListOutcome) -> Vec<String> {
    match r {
        ListOutcome::Entries(v) => v,
        _ => panic!("expected entries"),
    }
}

fn matches_of(r: GetOutcome) -> Vec<String> {
    match r {
        GetOutcome::Matches(v) => v,
        _ => panic!("expected matches"),
    }
}

#[test]
fn store_into_empty_then_list_yields_one_entry() {
    let s = "  grep -r pattern .  ";
    let appended = match store_oneliner(s, "") {
        StoreOutcome::Append(line) => line,
        _ => panic!("expected an append"),
    };
    assert_eq!(appended, format!("{}\n", s));
    let content = appended;
    let entries = entries_of(list_oneliners(Some(&content)));
    assert_eq!(entries, vec!["grep -r pattern .".to_string()]);
}

#[test]
fn storing_twice_reports_duplicate() {
    let first = match store_oneliner("du -sh *", "") {
        StoreOutcome::Append(line) => line,
        _ => panic!("expected an append"),
    };
    assert!(matches!(
        store_oneliner("du -sh *", &first),
        StoreOutcome::Duplicate
    ));
    // The comparison is on trimmed text.
    assert!(matches!(
        store_oneliner("  du -sh *  ", &first),
        StoreOutcome::Duplicate
    ));
}

#[test]
fn multi_line_candidate_is_rejected() {
    assert!(matches!(store_oneliner("a\nb", ""), StoreOutcome::Rejected));
    assert!(matches!(
        store_oneliner("a\r\nb", "a\r\nb\n"),
        StoreOutcome::Rejected
    ));
    // Nothing is handed back to append: the store stays as it is.
}

#[test]
fn list_returns_first_ten_in_append_order() {
    let mut content = String::new();
    for i in 0..15 {
        content.push_str(&format!("entry number {}\n", i));
    }
    let entries = entries_of(list_oneliners(Some(&content)));
    assert_eq!(entries.len(), 10);
    for i in 0..10 {
        assert_eq!(entries[i], format!("entry number {}", i));
    }
}

#[test]
fn listing_a_missing_store_reports_no_store() {
    assert!(matches!(list_oneliners(None), ListOutcome::NoStore));
}

#[test]
fn listing_only_blank_lines_reports_no_entries() {
    assert!(matches!(
        list_oneliners(Some("\n   \n\t\n")),
        ListOutcome::NoEntries
    ));
}

#[test]
fn search_keeps_first_three_matches_in_file_order() {
    let content = "abc123\nxyz\nabc456\nabc789\nqqq\n";
    let found = matches_of(get_oneliner("abc", Some(content)));
    assert_eq!(
        found,
        vec![
            "abc123".to_string(),
            "abc456".to_string(),
            "abc789".to_string()
        ]
    );
    // A fourth match never shows up.
    let more = format!("{}abcLAST\n", content);
    let found = matches_of(get_oneliner("abc", Some(&more)));
    assert_eq!(found.len(), 3);
    assert_eq!(found[2], "abc789");
}

#[test]
fn search_with_no_match_reports_no_matches() {
    let content = "abc123\nxyz\n";
    assert!(matches!(
        get_oneliner("zzz", Some(content)),
        GetOutcome::NoMatches
    ));
    assert!(matches!(get_oneliner("zzz", None), GetOutcome::NoStore));
}

#[test]
fn blank_lines_are_excluded_from_list_and_get() {
    let content = "first\n\nsecond\n   \nthird\n";
    let entries = entries_of(list_oneliners(Some(content)));
    assert_eq!(
        entries,
        vec![
            "first".to_string(),
            "second".to_string(),
            "third".to_string()
        ]
    );
    let found = matches_of(get_oneliner("", Some(content)));
    // Every line matches the empty search, but empty lines are skipped.
    // Unlike the listing, the search does not trim, so the line of spaces
    // counts as a (matching) line.
    assert_eq!(
        found,
        vec!["first".to_string(), "second".to_string(), "   ".to_string()]
    );
    let found = matches_of(get_oneliner("", Some("first\n\nsecond\n\nthird\n")));
    assert_eq!(
        found,
        vec![
            "first".to_string(),
            "second".to_string(),
            "third".to_string()
        ]
    );
}

#[test]
fn selection_accepts_only_numbers_in_range() {
    assert_eq!(parse_selection("2", 2), Some(2));
    assert_eq!(parse_selection("2\n", 2), Some(2));
    assert_eq!(parse_selection("1", 2), Some(1));
    assert_eq!(parse_selection("0", 2), None);
    assert_eq!(parse_selection("3", 2), None);
    assert_eq!(parse_selection("abc", 2), None);
    assert_eq!(parse_selection("", 2), None);
    assert_eq!(parse_selection("-1", 2), None);
    assert_eq!(parse_selection("+2", 2), Some(2));
}

#[test]
fn parse_usize_matches_std_parse() {
    assert_eq!(parse_usize("0"), Some(0));
    assert_eq!(parse_usize("42"), Some(42));
    assert_eq!(parse_usize("+7"), Some(7));
    assert_eq!(parse_usize("007"), Some(7));
    assert_eq!(parse_usize(""), None);
    assert_eq!(parse_usize("+"), None);
    assert_eq!(parse_usize("4 2"), None);
    assert_eq!(parse_usize("4a"), None);
    // Far beyond any machine's usize.
    assert_eq!(parse_usize("999999999999999999999999999999"), None);
    assert_eq!(parse_usize(&usize::MAX.to_string()), Some(usize::MAX));
}

#[test]
fn duplicate_check_trims_both_sides() {
    let content = "  spaced out  \nplain\n";
    assert!(line_exists_in_file(content, "spaced out"));
    assert!(line_exists_in_file(content, "\tplain "));
    assert!(!line_exists_in_file(content, "spaced"));
    assert!(!line_exists_in_file("", "anything"));
}

#[test]
fn trim_matches_std_trim() {
    for s in ["", "   ", "a", "  a", "a  ", " a b ", "\t x \r\n", "\u{3000}wide\u{a0}"] {
        assert_eq!(trim(s), s.trim());
    }
}

#[test]
fn str_eq_matches_equality() {
    assert!(str_eq("abc", "abc"));
    assert!(!str_eq("abc", "abd"));
    assert!(!str_eq("abc", "ab"));
    assert!(str_eq("", ""));
}

#[test]
fn contains_matches_std_contains() {
    for (h, n) in [
        ("hello world", "lo wo"),
        ("hello", ""),
        ("", ""),
        ("abc", "abcd"),
        ("aaab", "aab"),
        ("abc", "abc"),
    ] {
        assert_eq!(contains_str(h, n), h.contains(n), "{:?} {:?}", h, n);
    }
}

#[test]
fn store_path_appends_the_fixed_name() {
    assert_eq!(oneliners_path("/home/someone"), "/home/someone/.oneliners");
}

#[test]
fn lines_with_crlf_terminators_read_back_stripped() {
    let content = "one\r\ntwo\r\n";
    let entries = entries_of(list_oneliners(Some(content)));
    assert_eq!(entries, vec!["one".to_string(), "two".to_string()]);
    assert!(line_exists_in_file(content, "two"));
}

#[test]
fn final_line_without_terminator_still_counts() {
    let entries = entries_of(list_oneliners(Some("one\ntwo")));
    assert_eq!(entries, vec!["one".to_string(), "two".to_string()]);
}

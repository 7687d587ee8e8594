use url_finder::engine::UrlFinder;
use url_finder::page::{Timestamp, UrlData};
use url_finder::store::{insert_record, merge_records};
use url_finder::url_list::{
    insert_text, merge_url_list, merge_urls, parse_url_list, render_url_list,
};

fn record(url: &str, title: &str) -> UrlData {
    UrlData {
        url: url.to_string(),
        title: title.to_string(),
        found_at: "starting_point".to_string(),
        timestamp: Timestamp { secs: 10, nanos: 20 },
        status_code: 200,
    }
}

fn summary(records: &[UrlData]) -> Vec<(String, String)> {
    records.iter().map(|r| (r.url.clone(), r.title.clone())).collect()
}

fn pair(url: &str, title: &str) -> (String, String) {
    (url.to_string(), title.to_string())
}

fn strings(texts: &[&str]) -> Vec<String> {
    texts.iter().map(|t| t.to_string()).collect()
}

#[test]
fn merge_sorts_by_url() {
    let found = vec![
        record("https://b.test/", "b"),
        record("https://a.test/z", "az"),
        record("https://a.test/", "a"),
        record("https://a.test/Z", "aZ"),
    ];
    let merged = merge_records(&Vec::new(), &found);
    assert_eq!(
        summary(&merged),
        vec![
            pair("https://a.test/", "a"),
            pair("https://a.test/Z", "aZ"),
            pair("https://a.test/z", "az"),
            pair("https://b.test/", "b"),
        ]
    );
    assert_eq!(merged[0].found_at, "starting_point");
    assert_eq!(merged[0].timestamp, Timestamp { secs: 10, nanos: 20 });
    assert_eq!(merged[0].status_code, 200);
}

#[test]
fn merge_keeps_the_first_record_of_a_url() {
    let existing = vec![record("https://a.test/", "stored"), record("https://c.test/", "c")];
    let found = vec![
        record("https://b.test/", "first b"),
        record("https://a.test/", "new"),
        record("https://b.test/", "second b"),
    ];
    let merged = merge_records(&existing, &found);
    assert_eq!(
        summary(&merged),
        vec![
            pair("https://a.test/", "stored"),
            pair("https://b.test/", "first b"),
            pair("https://c.test/", "c"),
        ]
    );
}

#[test]
fn merge_sorts_unsorted_stored_records() {
    let existing = vec![
        record("https://c.test/", "c"),
        record("https://a.test/", "a"),
        record("https://c.test/", "c again"),
    ];
    let merged = merge_records(&existing, &Vec::new());
    assert_eq!(summary(&merged), vec![pair("https://a.test/", "a"), pair("https://c.test/", "c")]);
}

#[test]
fn merge_of_nothing_is_empty() {
    assert!(merge_records(&Vec::new(), &Vec::new()).is_empty());
}

#[test]
fn saving_the_same_records_twice_changes_nothing() {
    let found = vec![
        record("https://b.test/", "b"),
        record("https://a.test/", "a"),
        record("https://b.test/", "b2"),
    ];
    let once = merge_records(&Vec::new(), &found);
    let twice = merge_records(&once, &found);
    assert_eq!(summary(&once), summary(&twice));
    assert_eq!(once, twice);
}

#[test]
fn saving_two_result_sets_gives_their_sorted_union() {
    let a = vec![record("https://a.test/2", "a2"), record("https://a.test/1", "a1")];
    let b = vec![record("https://b.test/", "b"), record("https://a.test/15", "a15")];
    let first = merge_records(&Vec::new(), &a);
    let second = merge_records(&first, &b);
    assert_eq!(
        summary(&second),
        vec![
            pair("https://a.test/1", "a1"),
            pair("https://a.test/15", "a15"),
            pair("https://a.test/2", "a2"),
            pair("https://b.test/", "b"),
        ]
    );
}

#[test]
fn insert_record_places_and_drops() {
    let mut sorted = vec![record("b", "b"), record("d", "d")];
    insert_record(&mut sorted, record("c", "c"));
    insert_record(&mut sorted, record("a", "a"));
    insert_record(&mut sorted, record("e", "e"));
    insert_record(&mut sorted, record("c", "late"));
    assert_eq!(
        summary(&sorted),
        vec![pair("a", "a"), pair("b", "b"), pair("c", "c"), pair("d", "d"), pair("e", "e")]
    );
}

#[test]
fn list_text_is_read_piece_by_piece() {
    assert_eq!(parse_url_list(""), Vec::<String>::new());
    assert_eq!(parse_url_list(","), Vec::<String>::new());
    assert_eq!(parse_url_list("\"a\""), strings(&["a"]));
    assert_eq!(parse_url_list("\"a\",\"b\""), strings(&["a", "b"]));
    assert_eq!(parse_url_list("\"b\", \"a\" ,\n\"c\"\n"), strings(&["b", "a", "c"]));
    assert_eq!(parse_url_list("a,,b,"), strings(&["a", "b"]));
    assert_eq!(parse_url_list("\"\"a\"\""), strings(&["a"]));
    assert_eq!(parse_url_list("\" a \""), strings(&[" a "]));
    assert_eq!(parse_url_list(" "), strings(&[""]));
    assert_eq!(parse_url_list("\"\""), strings(&[""]));
    assert_eq!(parse_url_list("a\"b"), strings(&["a\"b"]));
    assert_eq!(parse_url_list("\"a,b\""), strings(&["a", "b"]));
    assert_eq!(parse_url_list("\u{a0}\"x\"\u{3000}"), strings(&["x"]));
}

#[test]
fn list_text_is_written_quoted_and_joined() {
    assert_eq!(render_url_list(&Vec::new()), "");
    assert_eq!(render_url_list(&strings(&["a"])), "\"a\"");
    assert_eq!(render_url_list(&strings(&["a", "b", "c"])), "\"a\",\"b\",\"c\"");
    assert_eq!(render_url_list(&strings(&[""])), "\"\"");
}

#[test]
fn insert_text_keeps_order_and_drops_repeats() {
    let mut sorted: Vec<String> = Vec::new();
    for text in ["m", "a", "z", "m", "b", "a", "", "zz", "Z"] {
        insert_text(&mut sorted, text.to_string());
    }
    assert_eq!(sorted, strings(&["", "Z", "a", "b", "m", "z", "zz"]));
}

#[test]
fn urls_are_merged_sorted_without_repeats() {
    let existing = strings(&["https://c.test/", "https://a.test/", "https://c.test/"]);
    let found = vec![record("https://b.test/", "b"), record("https://a.test/", "a")];
    assert_eq!(
        merge_urls(&existing, &found),
        strings(&["https://a.test/", "https://b.test/", "https://c.test/"])
    );
}

#[test]
fn url_order_is_the_order_of_strings() {
    let mut expected = strings(&["b", "a", "ab", "B", "é", "z", "~", "a/", "a-", "", "日本", "\u{10348}"]);
    let found: Vec<UrlData> = expected.iter().map(|u| record(u, "t")).collect();
    let merged = merge_urls(&Vec::new(), &found);
    expected.sort();
    assert_eq!(merged, expected);
}

#[test]
fn list_merge_into_an_empty_text() {
    let found = vec![record("https://b.test/", "b"), record("https://a.test/", "a")];
    assert_eq!(merge_url_list("", &found), "\"https://a.test/\",\"https://b.test/\"");
}

#[test]
fn list_merge_twice_changes_nothing() {
    let found = vec![
        record("https://b.test/", "b"),
        record("https://a.test/", "a"),
        record("https://b.test/", "b"),
    ];
    let once = merge_url_list("", &found);
    let twice = merge_url_list(&once, &found);
    assert_eq!(once, "\"https://a.test/\",\"https://b.test/\"");
    assert_eq!(twice, once);
}

#[test]
fn list_merge_accumulates() {
    let a = vec![record("https://a.test/2", "a2"), record("https://a.test/1", "a1")];
    let b = vec![record("https://b.test/", "b"), record("https://a.test/15", "a15")];
    let first = merge_url_list("", &a);
    let second = merge_url_list(&first, &b);
    assert_eq!(
        second,
        "\"https://a.test/1\",\"https://a.test/15\",\"https://a.test/2\",\"https://b.test/\""
    );
}

#[test]
fn list_merge_tolerates_loose_text() {
    let found = vec![record("https://b.test/", "b")];
    assert_eq!(
        merge_url_list(" \"https://c.test/\" ,https://a.test/,,", &found),
        "\"https://a.test/\",\"https://b.test/\",\"https://c.test/\""
    );
}

#[test]
fn a_blank_piece_of_the_list_stands_for_the_empty_url() {
    let found = vec![record("https://b.test/", "b")];
    assert_eq!(
        merge_url_list("\"https://c.test/\",\n", &found),
        "\"\",\"https://b.test/\",\"https://c.test/\""
    );
}

#[test]
fn a_url_with_a_comma_is_split_when_read_back() {
    let found = vec![record("https://a.test/x,y", "xy")];
    let once = merge_url_list("", &found);
    assert_eq!(once, "\"https://a.test/x,y\"");
    let twice = merge_url_list(&once, &found);
    assert_eq!(twice, "\"https://a.test/x\",\"https://a.test/x,y\",\"y\"");
}

#[test]
fn finder_merges_its_results() {
    let mut finder = UrlFinder::try_new("https://example.test/", 5, true).unwrap();
    let stamp = Timestamp { secs: 3, nanos: 4 };
    finder.next_request();
    finder.record_fetched(
        200,
        "<title>root</title><a href=\"/b\">b</a><a href=\"/a\">a</a>",
        stamp,
    );
    finder.next_request();
    finder.record_fetched(200, "<title>b</title>", stamp);
    finder.next_request();
    finder.record_fetched(200, "<title>a</title>", stamp);
    let stored = vec![record("https://example.test/a", "stored a"), record("https://old.test/", "old")];
    let merged = finder.merged_results(&stored);
    assert_eq!(
        summary(&merged),
        vec![
            pair("https://example.test/", "root"),
            pair("https://example.test/a", "stored a"),
            pair("https://example.test/b", "b"),
            pair("https://old.test/", "old"),
        ]
    );
    assert_eq!(
        finder.exported_urls("\"https://old.test/\""),
        "\"https://example.test/\",\"https://example.test/a\",\"https://example.test/b\",\"https://old.test/\""
    );
    let again = finder.merged_results(&merged);
    assert_eq!(again, merged);
}

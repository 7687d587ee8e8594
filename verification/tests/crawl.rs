use url_finder::engine::UrlFinder;
use url_finder::page::{Timestamp, UrlData};

const SEED: &str = "https://example.test/";

fn page(title: &str, links: &[&str]) -> String {
    let mut html = format!("<html><head><title>{}</title></head><body>", title);
    for link in links {
        html.push_str(&format!("<a href=\"{}\">link</a>", link));
    }
    html.push_str("</body></html>");
    html
}

fn site() -> Vec<(String, Option<String>)> {
    vec![
        (SEED.to_string(), Some(page("root", &["/a", "/b"]))),
        ("https://example.test/a".to_string(), Some(page("a", &["/c"]))),
        ("https://example.test/b".to_string(), Some(page("b", &[]))),
        ("https://example.test/c".to_string(), Some(page("c", &[]))),
    ]
}

/// Runs the crawl against an in-memory site and gives the URLs in the order
/// in which they were asked for. A URL without a page fails.
fn run(finder: &mut UrlFinder, site: &[(String, Option<String>)]) -> Vec<String> {
    let mut asked = Vec::new();
    let stamp = Timestamp { secs: 1_700_000_000, nanos: 0 };
    while let Some((_found_at, url)) = finder.next_request() {
        asked.push(url.clone());
        let body = site.iter().find(|(u, _)| *u == url).and_then(|(_, b)| b.clone());
        match body {
            Some(html) => finder.record_fetched(200, &html, stamp),
            None => finder.record_failure(),
        }
    }
    asked
}

fn urls_of(records: &[UrlData]) -> Vec<String> {
    records.iter().map(|r| r.url.clone()).collect()
}

#[test]
fn budget_of_three_stops_before_the_fourth_page() {
    let mut finder = UrlFinder::try_new(SEED, 3, true).unwrap();
    let asked = run(&mut finder, &site());
    assert_eq!(
        asked,
        vec!["https://example.test/", "https://example.test/a", "https://example.test/b"]
    );
    assert_eq!(finder.visited_count(), 3);
    assert!(!finder.has_visited("https://example.test/c"));
    assert_eq!(finder.frontier_len(), 1);
    assert!(finder.is_done());
    let records = finder.found_urls();
    assert_eq!(records.len(), 3);
    assert_eq!(urls_of(records), asked);
    let found_at: Vec<&str> = records.iter().map(|r| r.found_at.as_str()).collect();
    assert_eq!(found_at, vec!["starting_point", SEED, SEED]);
    let titles: Vec<&str> = records.iter().map(|r| r.title.as_str()).collect();
    assert_eq!(titles, vec!["root", "a", "b"]);
    assert!(records.iter().all(|r| r.status_code == 200));
}

#[test]
fn new_crawl_holds_only_the_seed() {
    let finder = UrlFinder::try_new(SEED, 10, true).unwrap();
    assert_eq!(finder.base_url(), SEED);
    assert_eq!(finder.domain(), "example.test");
    assert_eq!(finder.max_pages(), 10);
    assert!(finder.same_domain_only());
    assert_eq!(finder.visited_count(), 0);
    assert_eq!(finder.frontier_len(), 1);
    assert!(finder.found_urls().is_empty());
    assert!(!finder.is_done());
}

#[test]
fn malformed_seed_is_refused() {
    assert!(UrlFinder::try_new("not a url", 10, true).is_none());
    assert!(UrlFinder::try_new("", 10, true).is_none());
    assert!(UrlFinder::try_new("/relative/path", 10, false).is_none());
}

#[test]
fn seed_without_host_has_empty_domain() {
    let finder = UrlFinder::try_new("data:text/plain,hello", 1, true).unwrap();
    assert_eq!(finder.domain(), "");
}

#[test]
fn first_request_is_the_seed_from_the_starting_point() {
    let mut finder = UrlFinder::new(SEED, 5, true);
    let request = finder.next_request();
    assert_eq!(request, Some(("starting_point".to_string(), SEED.to_string())));
    assert!(finder.has_visited(SEED));
    assert_eq!(finder.frontier_len(), 0);
}

#[test]
fn visited_never_exceeds_the_budget() {
    for budget in 0..7 {
        let mut finder = UrlFinder::try_new(SEED, budget, true).unwrap();
        let asked = run(&mut finder, &site());
        assert!(finder.visited_count() <= budget);
        assert_eq!(asked.len(), budget.min(4));
        assert_eq!(finder.found_urls().len(), budget.min(4));
    }
}

#[test]
fn zero_budget_fetches_nothing() {
    let mut finder = UrlFinder::try_new(SEED, 0, true).unwrap();
    assert!(finder.is_done());
    assert_eq!(finder.next_request(), None);
    assert_eq!(finder.visited_count(), 0);
    assert_eq!(finder.frontier_len(), 1);
}

#[test]
fn no_url_is_asked_for_twice() {
    let site = vec![
        (SEED.to_string(), Some(page("root", &["/a", "/a", "/b", "/"]))),
        ("https://example.test/a".to_string(), Some(page("a", &["/b", "/", "/a"]))),
        ("https://example.test/b".to_string(), Some(page("b", &["/a", "/b", "/"]))),
    ];
    let mut finder = UrlFinder::try_new(SEED, 100, true).unwrap();
    let asked = run(&mut finder, &site);
    assert_eq!(
        asked,
        vec!["https://example.test/", "https://example.test/a", "https://example.test/b"]
    );
    assert_eq!(urls_of(finder.found_urls()), asked);
    assert_eq!(finder.frontier_len(), 0);
}

#[test]
fn a_link_found_twice_keeps_its_first_place_of_discovery() {
    let site = vec![
        (SEED.to_string(), Some(page("root", &["/a", "/b"]))),
        ("https://example.test/a".to_string(), Some(page("a", &["/c"]))),
        ("https://example.test/b".to_string(), Some(page("b", &["/c"]))),
        ("https://example.test/c".to_string(), Some(page("c", &[]))),
    ];
    let mut finder = UrlFinder::try_new(SEED, 100, true).unwrap();
    run(&mut finder, &site);
    let records = finder.found_urls();
    assert_eq!(records.len(), 4);
    assert_eq!(records[3].url, "https://example.test/c");
    assert_eq!(records[3].found_at, "https://example.test/a");
}

#[test]
fn a_page_repeating_a_link_queues_it_twice() {
    let mut finder = UrlFinder::try_new(SEED, 100, true).unwrap();
    finder.next_request();
    finder.record_fetched(200, &page("root", &["/a", "/a"]), Timestamp { secs: 0, nanos: 0 });
    assert_eq!(finder.frontier_len(), 2);
    assert_eq!(
        finder.next_request(),
        Some((SEED.to_string(), "https://example.test/a".to_string()))
    );
    finder.record_failure();
    assert_eq!(finder.next_request(), None);
    assert_eq!(finder.frontier_len(), 0);
}

#[test]
fn pages_are_processed_level_by_level() {
    let site = vec![
        (SEED.to_string(), Some(page("root", &["/a", "/b"]))),
        ("https://example.test/a".to_string(), Some(page("a", &["/a1", "/a2"]))),
        ("https://example.test/b".to_string(), Some(page("b", &["/b1"]))),
        ("https://example.test/a1".to_string(), Some(page("a1", &["/deep"]))),
        ("https://example.test/a2".to_string(), Some(page("a2", &[]))),
        ("https://example.test/b1".to_string(), Some(page("b1", &[]))),
        ("https://example.test/deep".to_string(), Some(page("deep", &[]))),
    ];
    let mut finder = UrlFinder::try_new(SEED, 100, true).unwrap();
    let asked = run(&mut finder, &site);
    assert_eq!(
        asked,
        vec![
            "https://example.test/",
            "https://example.test/a",
            "https://example.test/b",
            "https://example.test/a1",
            "https://example.test/a2",
            "https://example.test/b1",
            "https://example.test/deep",
        ]
    );
}

#[test]
fn a_failing_page_does_not_stop_the_crawl() {
    let site = vec![
        (SEED.to_string(), Some(page("root", &["/broken", "/b"]))),
        ("https://example.test/broken".to_string(), None),
        ("https://example.test/b".to_string(), Some(page("b", &["/broken", "/c"]))),
        ("https://example.test/c".to_string(), Some(page("c", &[]))),
    ];
    let mut finder = UrlFinder::try_new(SEED, 100, true).unwrap();
    let asked = run(&mut finder, &site);
    assert_eq!(
        asked,
        vec![
            "https://example.test/",
            "https://example.test/broken",
            "https://example.test/b",
            "https://example.test/c",
        ]
    );
    assert!(finder.has_visited("https://example.test/broken"));
    assert_eq!(
        urls_of(finder.found_urls()),
        vec!["https://example.test/", "https://example.test/b", "https://example.test/c"]
    );
}

#[test]
fn a_failed_fetch_leaves_queue_and_results_alone() {
    let mut finder = UrlFinder::try_new(SEED, 5, true).unwrap();
    finder.next_request();
    finder.record_fetched(200, &page("root", &["/a", "/b"]), Timestamp { secs: 0, nanos: 0 });
    finder.next_request();
    let queued = finder.frontier_len();
    let recorded = finder.found_urls().len();
    let visited = finder.visited_count();
    finder.record_failure();
    assert_eq!(finder.frontier_len(), queued);
    assert_eq!(finder.found_urls().len(), recorded);
    assert_eq!(finder.visited_count(), visited);
}

#[test]
fn an_answer_without_a_request_changes_nothing() {
    let mut finder = UrlFinder::try_new(SEED, 5, true).unwrap();
    finder.record_fetched(200, &page("root", &["/a"]), Timestamp { secs: 0, nanos: 0 });
    finder.record_failure();
    assert_eq!(finder.frontier_len(), 1);
    assert!(finder.found_urls().is_empty());
    assert_eq!(finder.visited_count(), 0);
}

#[test]
fn same_domain_only_keeps_other_hosts_out() {
    let site = vec![
        (
            SEED.to_string(),
            Some(page("root", &["https://other.test/x", "/a", "https://sub.example.test/y"])),
        ),
        ("https://example.test/a".to_string(), Some(page("a", &[]))),
        ("https://other.test/x".to_string(), Some(page("x", &[]))),
        ("https://sub.example.test/y".to_string(), Some(page("y", &[]))),
    ];
    let mut finder = UrlFinder::try_new(SEED, 100, true).unwrap();
    run(&mut finder, &site);
    assert_eq!(
        urls_of(finder.found_urls()),
        vec!["https://example.test/", "https://example.test/a"]
    );
    assert_eq!(finder.unique_domains(), 1);
}

#[test]
fn without_the_restriction_other_hosts_are_crawled() {
    let site = vec![
        (SEED.to_string(), Some(page("root", &["https://other.test/x", "/a"]))),
        ("https://example.test/a".to_string(), Some(page("a", &[]))),
        ("https://other.test/x".to_string(), Some(page("x", &[]))),
    ];
    let mut finder = UrlFinder::try_new(SEED, 100, false).unwrap();
    run(&mut finder, &site);
    assert_eq!(
        urls_of(finder.found_urls()),
        vec!["https://example.test/", "https://other.test/x", "https://example.test/a"]
    );
    assert_eq!(finder.unique_domains(), 2);
}

#[test]
fn script_mail_and_phone_links_are_never_queued() {
    let mut finder = UrlFinder::try_new(SEED, 100, false).unwrap();
    finder.next_request();
    let html = page(
        "root",
        &["javascript:void(0)", "mailto:someone@example.test", "tel:+15550100", "javascript:"],
    );
    finder.record_fetched(200, &html, Timestamp { secs: 0, nanos: 0 });
    assert_eq!(finder.frontier_len(), 0);
    assert_eq!(finder.next_request(), None);
}

#[test]
fn an_empty_reference_is_not_queued() {
    let mut finder = UrlFinder::try_new(SEED, 100, true).unwrap();
    finder.next_request();
    finder.record_fetched(200, &page("root", &[""]), Timestamp { secs: 0, nanos: 0 });
    assert_eq!(finder.frontier_len(), 0);
}

#[test]
fn record_success_stamps_the_record() {
    let mut finder = UrlFinder::try_new(SEED, 5, true).unwrap();
    finder.next_request();
    finder.record_success(404, &page("  gone  ", &["/a"]));
    let records = finder.found_urls();
    assert_eq!(records.len(), 1);
    assert_eq!(records[0].url, SEED);
    assert_eq!(records[0].title, "gone");
    assert_eq!(records[0].found_at, "starting_point");
    assert_eq!(records[0].status_code, 404);
    assert!(records[0].timestamp.secs > 1_600_000_000);
    assert_eq!(finder.frontier_len(), 1);
}

#[test]
fn a_new_request_gives_up_the_unanswered_one() {
    let mut finder = UrlFinder::try_new(SEED, 5, true).unwrap();
    finder.next_request();
    assert_eq!(finder.next_request(), None);
    finder.record_fetched(200, &page("root", &["/a"]), Timestamp { secs: 0, nanos: 0 });
    assert!(finder.found_urls().is_empty());
    assert!(finder.has_visited(SEED));
}

#[test]
fn a_fragment_reference_is_not_queued() {
    let mut finder = UrlFinder::try_new(SEED, 100, true).unwrap();
    finder.next_request();
    finder.record_fetched(200, &page("root", &["#top", "#"]), Timestamp { secs: 0, nanos: 0 });
    assert_eq!(finder.frontier_len(), 0);
    assert_eq!(finder.next_request(), None);
}

#[test]
fn a_link_is_queued_without_its_fragment() {
    let mut finder = UrlFinder::try_new(SEED, 100, true).unwrap();
    finder.next_request();
    finder.record_fetched(200, &page("root", &["/a#sec"]), Timestamp { secs: 0, nanos: 0 });
    assert_eq!(
        finder.next_request(),
        Some((SEED.to_string(), "https://example.test/a".to_string()))
    );
}

#[test]
fn a_page_and_its_sections_are_one_page() {
    let site = vec![
        (SEED.to_string(), Some(page("root", &["/a", "/a#one", "/a#two", "/#top"]))),
        ("https://example.test/a".to_string(), Some(page("a", &["/a#three", "/"]))),
    ];
    let mut finder = UrlFinder::try_new(SEED, 100, true).unwrap();
    let asked = run(&mut finder, &site);
    assert_eq!(asked, vec!["https://example.test/", "https://example.test/a"]);
    assert_eq!(finder.found_urls().len(), 2);
}

#[test]
fn record_page_takes_in_a_record_and_links() {
    let mut finder = UrlFinder::try_new(SEED, 100, true).unwrap();
    finder.next_request();
    let record = UrlData {
        url: SEED.to_string(),
        title: "given".to_string(),
        found_at: "starting_point".to_string(),
        timestamp: Timestamp { secs: 9, nanos: 1 },
        status_code: 203,
    };
    let links = vec![
        "https://example.test/b".to_string(),
        SEED.to_string(),
        "https://example.test/a".to_string(),
        "https://example.test/b".to_string(),
    ];
    finder.record_page(record.clone(), links);
    assert_eq!(finder.found_urls(), &vec![record]);
    assert_eq!(finder.frontier_len(), 3);
    assert_eq!(
        finder.next_request(),
        Some((SEED.to_string(), "https://example.test/b".to_string()))
    );
    finder.record_failure();
    assert_eq!(
        finder.next_request(),
        Some((SEED.to_string(), "https://example.test/a".to_string()))
    );
    finder.record_failure();
    assert_eq!(finder.next_request(), None);
}

#[test]
fn record_page_turns_away_a_record_of_another_url() {
    let mut finder = UrlFinder::try_new(SEED, 100, true).unwrap();
    finder.next_request();
    let record = UrlData {
        url: "https://example.test/other".to_string(),
        title: "other".to_string(),
        found_at: "starting_point".to_string(),
        timestamp: Timestamp { secs: 0, nanos: 0 },
        status_code: 200,
    };
    finder.record_page(record, vec!["https://example.test/a".to_string()]);
    assert!(finder.found_urls().is_empty());
    assert_eq!(finder.frontier_len(), 0);
    assert!(finder.has_visited(SEED));
}

#[test]
fn record_page_without_a_request_changes_nothing() {
    let mut finder = UrlFinder::try_new(SEED, 100, true).unwrap();
    let record = UrlData {
        url: SEED.to_string(),
        title: "early".to_string(),
        found_at: "starting_point".to_string(),
        timestamp: Timestamp { secs: 0, nanos: 0 },
        status_code: 200,
    };
    finder.record_page(record, vec!["https://example.test/a".to_string()]);
    assert!(finder.found_urls().is_empty());
    assert_eq!(finder.frontier_len(), 1);
}

#[test]
fn unique_domains_counts_hosts_once() {
    let site = vec![
        (
            SEED.to_string(),
            Some(page("root", &["https://other.test/x", "https://other.test/y", "/a", "data:text/plain,hi"])),
        ),
        ("https://other.test/x".to_string(), Some(page("x", &[]))),
        ("https://other.test/y".to_string(), Some(page("y", &[]))),
        ("https://example.test/a".to_string(), Some(page("a", &[]))),
        ("data:text/plain,hi".to_string(), Some(page("data", &[]))),
    ];
    let mut finder = UrlFinder::try_new(SEED, 100, false).unwrap();
    run(&mut finder, &site);
    assert_eq!(finder.found_urls().len(), 5);
    assert_eq!(finder.unique_domains(), 2);
    let fresh = UrlFinder::try_new(SEED, 100, false).unwrap();
    assert_eq!(fresh.unique_domains(), 0);
}

#[test]
fn a_seed_that_is_not_in_normal_form_is_recorded_as_given() {
    let site = vec![
        ("https://example.test".to_string(), Some(page("root", &["/", "/a"]))),
        (SEED.to_string(), Some(page("root again", &[]))),
        ("https://example.test/a".to_string(), Some(page("a", &[]))),
    ];
    let mut finder = UrlFinder::try_new("https://example.test", 100, true).unwrap();
    let asked = run(&mut finder, &site);
    assert_eq!(
        asked,
        vec!["https://example.test", "https://example.test/", "https://example.test/a"]
    );
}

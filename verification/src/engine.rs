//! The crawl engine: a breadth-first traversal with a page budget, written
//! as a state machine. The engine hands out the next URL to fetch and takes
//! back what the fetch gave; the caller does the fetching.
//!
//! `CrawlState` is the mathematical model of the engine, its transitions
//! are spec functions, and the laws of the traversal are proved of the
//! model. `UrlFinder` is the executable engine; each of its operations is
//! proved to make the model's transition.

use crate::link::{
    has_rejected_form, host_admitted, host_text, link_allowed, parse_host, parsed_host,
};
use crate::page::{
    body_fits, build_record, collect_links, current_time, extract_hrefs, extract_title,
    kept_links, lemma_kept_links_allowed, page_hrefs, page_record, page_title, records_view,
    texts_view, FetchError, PageView, Timestamp, UrlData, MAX_BODY_BYTES,
};
use crate::text::same_text;
use crate::store::{is_merge_of, merge_records};
use crate::url_list::{
    is_union_list, list_tokens, merge_url_list, record_urls, render_list, sorted_union,
};
use std::collections::VecDeque;
use vstd::hash_set::StringHashSet;
use vstd::prelude::*;

verus! {

/// A frontier entry: the place of discovery, then the URL.
pub type Entry = (Seq<char>, Seq<char>);

/// The number of entries at the front of `frontier` whose URL is visited.
pub open spec fn skip_count(frontier: Seq<Entry>, visited: Set<Seq<char>>) -> nat
    decreases frontier.len(),
{
    if frontier.len() > 0 && visited.contains(frontier[0].1) {
        1 + skip_count(frontier.drop_first(), visited)
    } else {
        0
    }
}

/// The entries that a page adds to the frontier: one for each of its links
/// that is not visited, in the links' order, each with the page as its
/// place of discovery. A link that occurs twice is entered twice.
pub open spec fn fresh_entries(source: Seq<char>, links: Seq<Seq<char>>, visited: Set<Seq<char>>) -> Seq<
    Entry,
>
    decreases links.len(),
{
    if links.len() == 0 {
        Seq::empty()
    } else {
        let rest = fresh_entries(source, links.drop_last(), visited);
        if visited.contains(links.last()) {
            rest
        } else {
            rest.push((source, links.last()))
        }
    }
}

/// The state of one crawl.
pub ghost struct CrawlState {
    /// The seed URL.
    pub base_url: Seq<char>,
    /// The seed's host, empty where it has none.
    pub domain: Seq<char>,
    /// The page budget.
    pub max_pages: nat,
    /// Whether discovery is restricted to the seed's host.
    pub same_domain_only: bool,
    /// The URLs claimed for processing.
    pub visited: Set<Seq<char>>,
    /// The entries awaiting processing, oldest first.
    pub frontier: Seq<Entry>,
    /// The records of the pages processed, in processing order.
    pub results: Seq<PageView>,
    /// The entry handed out for fetching and not yet answered.
    pub pending: Option<Entry>,
    /// The URLs handed out for fetching, in order.
    pub issued: Seq<Seq<char>>,
    /// For each issued URL, its distance from the seed in links followed.
    pub issued_depths: Seq<nat>,
    /// For each frontier entry, its distance from the seed.
    pub frontier_depths: Seq<nat>,
}

impl CrawlState {
    /// The state of a crawl that has not started: only the seed is queued.
    pub open spec fn initial(
        base_url: Seq<char>,
        max_pages: nat,
        same_domain_only: bool,
    ) -> CrawlState {
        CrawlState {
            base_url,
            domain: host_text(parsed_host(base_url)->0),
            max_pages,
            same_domain_only,
            visited: Set::empty(),
            frontier: seq![("starting_point"@, base_url)],
            results: Seq::empty(),
            pending: None,
            issued: Seq::empty(),
            issued_depths: Seq::empty(),
            frontier_depths: seq![0nat],
        }
    }

    /// The entry of the seed.
    pub open spec fn seed_entry(self) -> Entry {
        ("starting_point"@, self.base_url)
    }

    /// Whether the validity filter of this crawl lets `url` through.
    pub open spec fn admits(self, url: Seq<char>) -> bool {
        link_allowed(url, parsed_host(url), self.same_domain_only, self.domain)
    }

    /// What holds of a discovered URL: it passed the validity filter and
    /// holds no fragment.
    pub open spec fn discovered_ok(self, url: Seq<char>) -> bool {
        self.admits(url) && !url.contains('#')
    }

    /// An entry is in order where it is the seed's or its URL is a
    /// discovered URL in order.
    pub open spec fn entry_ok(self, e: Entry) -> bool {
        e == self.seed_entry() || self.discovered_ok(e.1)
    }

    /// A URL is in order where it is the seed or a discovered URL in order.
    pub open spec fn url_ok(self, url: Seq<char>) -> bool {
        url == self.base_url || self.discovered_ok(url)
    }

    /// Whether every link of `links` is a discovered URL in order.
    pub open spec fn links_ok(self, links: Seq<Seq<char>>) -> bool {
        forall|i: int| 0 <= i < links.len() ==> self.discovered_ok(#[trigger] links[i])
    }

    /// Whether the budget is used up: as many URLs are visited as the
    /// budget allows.
    pub open spec fn budget_spent(self) -> bool {
        self.visited.len() >= self.max_pages
    }

    /// Whether the crawl is over: the budget is used up or nothing is
    /// queued.
    pub open spec fn done(self) -> bool {
        self.budget_spent() || self.frontier.len() == 0
    }

    /// The invariant of the traversal: how the visited set, the frontier,
    /// the results and the pending entry hang together.
    pub open spec fn wf(self) -> bool {
        &&& self.issued.no_duplicates()
        &&& self.visited == self.issued.to_set()
        &&& self.issued.len() <= self.max_pages
        &&& self.issued_depths.len() == self.issued.len()
        &&& self.frontier_depths.len() == self.frontier.len()
        &&& forall|i: int, j: int|
            0 <= i <= j < self.issued_depths.len() ==> self.issued_depths[i]
                <= self.issued_depths[j]
        &&& forall|i: int, j: int|
            0 <= i <= j < self.frontier_depths.len() ==> self.frontier_depths[i]
                <= self.frontier_depths[j]
        &&& forall|i: int|
            0 <= i < self.frontier_depths.len() ==> if self.issued.len() == 0 {
                #[trigger] self.frontier_depths[i] == 0
            } else {
                self.issued_depths.last() <= self.frontier_depths[i] <= self.issued_depths.last()
                    + 1
            }
        &&& forall|i: int|
            0 <= i < self.results.len() ==> self.visited.contains((#[trigger] self.results[i]).url)
        &&& forall|i: int, j: int|
            0 <= i < j < self.results.len() ==> (#[trigger] self.results[i]).url
                != (#[trigger] self.results[j]).url
        &&& self.pending matches Some(e) ==> {
            &&& self.issued.len() > 0
            &&& self.issued.last() == e.1
            &&& forall|i: int|
                0 <= i < self.results.len() ==> (#[trigger] self.results[i]).url != e.1
        }
    }

    /// The invariant of discovery: the seed parses, the domain is its
    /// host, and every URL that waits, is in flight or has a record is the
    /// seed or a discovered URL in order.
    pub open spec fn filtered(self) -> bool {
        &&& parsed_host(self.base_url) is Some
        &&& self.domain == host_text(parsed_host(self.base_url)->0)
        &&& forall|i: int|
            0 <= i < self.frontier.len() ==> self.entry_ok(#[trigger] self.frontier[i])
        &&& forall|i: int|
            0 <= i < self.results.len() ==> self.url_ok((#[trigger] self.results[i]).url)
        &&& self.pending matches Some(e) ==> self.entry_ok(e)
    }

    /// The step that picks the next URL to fetch. Nothing is picked once
    /// the budget is used up, and the frontier then stays as it is.
    /// Otherwise the entries at the front whose URL is visited are dropped;
    /// the first entry whose URL is not visited leaves the frontier, its
    /// URL becomes visited and the entry is handed out. An entry handed
    /// out before and not answered counts as given up.
    pub open spec fn next(self) -> (CrawlState, Option<Entry>) {
        let idle = CrawlState { pending: None, ..self };
        if self.budget_spent() {
            (idle, None)
        } else {
            let k = skip_count(self.frontier, self.visited) as int;
            if k >= self.frontier.len() {
                (
                    CrawlState { frontier: Seq::empty(), frontier_depths: Seq::empty(), ..idle },
                    None,
                )
            } else {
                let e = self.frontier[k];
                (
                    CrawlState {
                        visited: self.visited.insert(e.1),
                        frontier: self.frontier.skip(k + 1),
                        frontier_depths: self.frontier_depths.skip(k + 1),
                        pending: Some(e),
                        issued: self.issued.push(e.1),
                        issued_depths: self.issued_depths.push(self.frontier_depths[k]),
                        ..self
                    },
                    Some(e),
                )
            }
        }
    }

    /// The step that takes in the record of the pending entry's page and
    /// the links found on it: the record is added to the results and the
    /// links that are not visited join the back of the frontier. Without a
    /// pending entry nothing changes; a record of another URL than the
    /// pending one is turned away and the entry given up.
    pub open spec fn recorded(self, record: PageView, links: Seq<Seq<char>>) -> CrawlState {
        match self.pending {
            None => self,
            Some(e) => if record.url != e.1 {
                self.failed()
            } else {
                let fresh = fresh_entries(e.1, links, self.visited);
                let depth = self.issued_depths.last() + 1;
                CrawlState {
                    results: self.results.push(record),
                    frontier: self.frontier + fresh,
                    frontier_depths: self.frontier_depths + Seq::new(
                        fresh.len(),
                        |i: int| depth as nat,
                    ),
                    pending: None,
                    ..self
                }
            },
        }
    }

    /// The step that takes in a fetched page: the page is read and its
    /// record and links are taken in as `recorded` says. Without a pending
    /// entry nothing changes; a body too long to parse and a pending URL
    /// that does not parse give the entry up.
    pub open spec fn fetched(self, status_code: u16, body: Seq<char>, timestamp: Timestamp) -> CrawlState {
        match self.pending {
            None => self,
            Some(e) => if !body_fits(body) || parsed_host(e.1) is None {
                self.failed()
            } else {
                self.recorded(
                    page_record(e.1, e.0, page_title(body), status_code, timestamp),
                    kept_links(e.1, page_hrefs(body), self.same_domain_only, self.domain),
                )
            },
        }
    }

    /// The step that takes in a failed fetch: the pending entry is given
    /// up. Its URL stays visited, so it is not tried again.
    pub open spec fn failed(self) -> CrawlState {
        CrawlState { pending: None, ..self }
    }
}

/// The view of an executable frontier entry.
pub open spec fn entry_view(e: (String, String)) -> Entry {
    (e.0@, e.1@)
}

/// The views of a sequence of executable frontier entries.
pub open spec fn entries_view(entries: Seq<(String, String)>) -> Seq<Entry> {
    entries.map_values(|e: (String, String)| entry_view(e))
}

/// The view of an optional frontier entry.
pub open spec fn request_view(request: Option<(String, String)>) -> Option<Entry> {
    match request {
        Some(e) => Some(entry_view(e)),
        None => None,
    }
}

/// The view of a queue without its first entry.
proof fn lemma_entries_view_tail(q: Seq<(String, String)>)
    requires
        q.len() > 0,
    ensures
        entries_view(q.subrange(1, q.len() as int)) == entries_view(q).skip(1),
        entries_view(q)[0] == entry_view(q[0]),
{
    assert(entries_view(q.subrange(1, q.len() as int)) =~= entries_view(q).skip(1));
}

/// The view of a queue with one more entry at its back.
proof fn lemma_entries_view_push(q: Seq<(String, String)>, e: (String, String))
    ensures
        entries_view(q.push(e)) == entries_view(q).push(entry_view(e)),
{
    assert(entries_view(q.push(e)) =~= entries_view(q).push(entry_view(e)));
}

/// Every fresh entry holds a link out of `links`.
pub proof fn lemma_fresh_entries_from_links(
    source: Seq<char>,
    links: Seq<Seq<char>>,
    visited: Set<Seq<char>>,
)
    ensures
        forall|i: int|
            0 <= i < fresh_entries(source, links, visited).len() ==> links.contains(
                (#[trigger] fresh_entries(source, links, visited)[i]).1,
            ),
    decreases links.len(),
{
    if links.len() > 0 {
        lemma_fresh_entries_from_links(source, links.drop_last(), visited);
        let rest = fresh_entries(source, links.drop_last(), visited);
        assert forall|i: int| 0 <= i < fresh_entries(source, links, visited).len() implies links.contains(
            (#[trigger] fresh_entries(source, links, visited)[i]).1,
        ) by {
            if i < rest.len() {
                let k = choose|k: int|
                    0 <= k < links.drop_last().len() && links.drop_last()[k] == rest[i].1;
                assert(links[k] == rest[i].1);
            } else {
                assert(links[links.len() - 1] == links.last());
            }
        }
    }
}

/// The state before the first step is in order.
pub proof fn lemma_initial_wf(base_url: Seq<char>, max_pages: nat, same_domain_only: bool)
    ensures
        CrawlState::initial(base_url, max_pages, same_domain_only).wf(),
        parsed_host(base_url) is Some ==> CrawlState::initial(
            base_url,
            max_pages,
            same_domain_only,
        ).filtered(),
{
    let s = CrawlState::initial(base_url, max_pages, same_domain_only);
    assert(s.visited =~= s.issued.to_set());
    assert(s.frontier[0] == s.seed_entry());
}

/// The entries that the picking step drops are visited, and the entry it
/// hands out is not.
pub proof fn lemma_skip_count(frontier: Seq<Entry>, visited: Set<Seq<char>>)
    ensures
        skip_count(frontier, visited) <= frontier.len(),
        forall|i: int|
            0 <= i < skip_count(frontier, visited) ==> visited.contains(
                (#[trigger] frontier[i]).1,
            ),
        skip_count(frontier, visited) < frontier.len() ==> !visited.contains(
            frontier[skip_count(frontier, visited) as int].1,
        ),
    decreases frontier.len(),
{
    if frontier.len() > 0 && visited.contains(frontier[0].1) {
        let rest = frontier.drop_first();
        lemma_skip_count(rest, visited);
        assert forall|i: int| 0 <= i < skip_count(frontier, visited) implies visited.contains(
            (#[trigger] frontier[i]).1,
        ) by {
            if i > 0 {
                assert(frontier[i] == rest[i - 1]);
            }
        }
        if skip_count(frontier, visited) < frontier.len() {
            assert(frontier[skip_count(frontier, visited) as int] == rest[skip_count(
                rest,
                visited,
            ) as int]);
        }
    }
}

/// The picking step keeps the invariants.
pub proof fn lemma_next_wf(s: CrawlState)
    requires
        s.wf(),
    ensures
        s.next().0.wf(),
        s.filtered() ==> s.next().0.filtered(),
{
    let t = s.next().0;
    s.issued.unique_seq_to_set();
    if !s.budget_spent() {
        let k = skip_count(s.frontier, s.visited) as int;
        lemma_skip_count(s.frontier, s.visited);
        if k < s.frontier.len() {
            let e = s.frontier[k];
            assert(!s.issued.contains(e.1));
            assert(t.issued.no_duplicates());
            assert(t.visited =~= t.issued.to_set()) by {
                assert forall|u: Seq<char>| t.issued.to_set().contains(u) implies t.visited.contains(
                    u,
                ) by {
                    let i = choose|i: int| 0 <= i < t.issued.len() && t.issued[i] == u;
                    if i < s.issued.len() {
                        assert(s.issued[i] == u);
                    }
                }
                assert forall|u: Seq<char>| t.visited.contains(u) implies t.issued.to_set().contains(
                    u,
                ) by {
                    if u == e.1 {
                        assert(t.issued[s.issued.len() as int] == u);
                    } else {
                        let i = choose|i: int| 0 <= i < s.issued.len() && s.issued[i] == u;
                        assert(t.issued[i] == u);
                    }
                }
            }
            assert forall|i: int| 0 <= i < t.results.len() implies (#[trigger] t.results[i]).url
                != e.1 by {
                assert(s.visited.contains(s.results[i].url));
            }
            if s.filtered() {
                assert(s.entry_ok(s.frontier[k]));
                assert forall|i: int| 0 <= i < t.frontier.len() implies t.entry_ok(
                    #[trigger] t.frontier[i],
                ) by {
                    assert(t.frontier[i] == s.frontier[i + k + 1]);
                }
            }
        }
    }
}

/// Taking in a record and links keeps the invariant of the traversal, and
/// that of discovery where the links are discovered URLs in order.
pub proof fn lemma_recorded_wf(s: CrawlState, record: PageView, links: Seq<Seq<char>>)
    requires
        s.wf(),
    ensures
        s.recorded(record, links).wf(),
        s.filtered() && s.links_ok(links) ==> s.recorded(record, links).filtered(),
{
    let t = s.recorded(record, links);
    match s.pending {
        None => {},
        Some(e) => {
            if record.url == e.1 {
                let fresh = fresh_entries(e.1, links, s.visited);
                assert(s.issued.contains(e.1)) by {
                    assert(s.issued[s.issued.len() - 1] == e.1);
                }
                assert forall|i: int| 0 <= i < t.results.len() implies t.visited.contains(
                    (#[trigger] t.results[i]).url,
                ) by {
                    if i < s.results.len() {
                        assert(t.results[i] == s.results[i]);
                    }
                }
                assert forall|i: int, j: int| 0 <= i < j < t.results.len() implies (
                #[trigger] t.results[i]).url != (#[trigger] t.results[j]).url by {
                    assert(t.results[i] == s.results[i]);
                    if j < s.results.len() {
                        assert(t.results[j] == s.results[j]);
                    }
                }
                if s.filtered() && s.links_ok(links) {
                    lemma_fresh_entries_from_links(e.1, links, s.visited);
                    assert forall|i: int| 0 <= i < t.frontier.len() implies t.entry_ok(
                        #[trigger] t.frontier[i],
                    ) by {
                        if i < s.frontier.len() {
                            assert(t.frontier[i] == s.frontier[i]);
                        } else {
                            let f = fresh[i - s.frontier.len()];
                            assert(t.frontier[i] == f);
                            let k = choose|k: int| 0 <= k < links.len() && links[k] == f.1;
                            assert(s.discovered_ok(links[k]));
                        }
                    }
                    assert forall|i: int| 0 <= i < t.results.len() implies t.url_ok(
                        (#[trigger] t.results[i]).url,
                    ) by {
                        if i < s.results.len() {
                            assert(t.results[i] == s.results[i]);
                        }
                    }
                }
            }
        },
    }
}

/// Taking in a fetched page keeps the invariants.
pub proof fn lemma_fetched_wf(s: CrawlState, status_code: u16, body: Seq<char>, timestamp: Timestamp)
    requires
        s.wf(),
    ensures
        s.fetched(status_code, body, timestamp).wf(),
        s.filtered() ==> s.fetched(status_code, body, timestamp).filtered(),
{
    match s.pending {
        None => {},
        Some(e) => {
            let links = kept_links(e.1, page_hrefs(body), s.same_domain_only, s.domain);
            lemma_kept_links_allowed(e.1, page_hrefs(body), s.same_domain_only, s.domain);
            lemma_recorded_wf(
                s,
                page_record(e.1, e.0, page_title(body), status_code, timestamp),
                links,
            );
        },
    }
}

/// Taking in a failed fetch keeps the invariants.
pub proof fn lemma_failed_wf(s: CrawlState)
    requires
        s.wf(),
    ensures
        s.failed().wf(),
        s.filtered() ==> s.failed().filtered(),
{
}

/// The budget is respected: in no state of a crawl are more URLs visited
/// than the budget allows.
pub proof fn lemma_budget_respected(s: CrawlState)
    requires
        s.wf(),
    ensures
        s.visited.finite(),
        s.visited.len() <= s.max_pages,
        s.visited.len() == s.issued.len(),
{
    s.issued.unique_seq_to_set();
}

/// No URL is fetched twice: the URLs handed out so far are all different,
/// and the URL that the next step hands out is none of them.
pub proof fn lemma_no_refetch(s: CrawlState)
    requires
        s.wf(),
    ensures
        s.issued.no_duplicates(),
        s.next().1 matches Some(e) ==> !s.issued.contains(e.1) && s.next().0.issued
            == s.issued.push(e.1),
        s.next().1 is None ==> s.next().0.issued == s.issued,
{
    if !s.budget_spent() {
        lemma_skip_count(s.frontier, s.visited);
    }
}

/// The traversal is breadth-first: URLs are handed out in the order of
/// their distance from the seed, and whatever still waits is at least as
/// far from the seed as everything handed out.
pub proof fn lemma_breadth_first(s: CrawlState)
    requires
        s.wf(),
    ensures
        forall|i: int, j: int|
            0 <= i <= j < s.issued.len() ==> s.issued_depths[i] <= s.issued_depths[j],
        forall|i: int, k: int|
            0 <= i < s.issued.len() && 0 <= k < s.frontier.len() ==> s.issued_depths[i]
                <= s.frontier_depths[k],
{
    assert forall|i: int, k: int|
        0 <= i < s.issued.len() && 0 <= k < s.frontier.len() implies s.issued_depths[i]
        <= s.frontier_depths[k] by {
        assert(s.issued_depths[i] <= s.issued_depths[s.issued_depths.len() - 1]);
        assert(s.issued_depths.last() <= s.frontier_depths[k]);
    }
}

/// No URL has two records, and every recorded URL was handed out for
/// fetching.
pub proof fn lemma_one_record_per_url(s: CrawlState, i: int, j: int)
    requires
        s.wf(),
        0 <= i < s.results.len(),
        0 <= j < s.results.len(),
        i != j,
    ensures
        s.results[i].url != s.results[j].url,
        s.issued.contains(s.results[i].url),
{
    if i < j {
        assert(s.results[i].url != s.results[j].url);
    } else {
        assert(s.results[j].url != s.results[i].url);
    }
    assert(s.visited.contains(s.results[i].url));
}

/// Under the domain restriction every recorded page is on the seed's
/// host.
pub proof fn lemma_results_on_seed_host(s: CrawlState, i: int)
    requires
        s.filtered(),
        s.same_domain_only,
        0 <= i < s.results.len(),
    ensures
        parsed_host(s.results[i].url) is Some,
        host_text(parsed_host(s.results[i].url)->0) == s.domain,
{
    assert(s.url_ok(s.results[i].url));
}

/// Every frontier entry but the seed's passed the validity filter: its URL
/// is not empty, is no fragment reference, has none of the schemes
/// `javascript:`, `mailto:` and `tel:`, parses as an absolute URL and
/// holds no fragment.
pub proof fn lemma_frontier_filtered(s: CrawlState, i: int)
    requires
        s.filtered(),
        0 <= i < s.frontier.len(),
        s.frontier[i] != s.seed_entry(),
    ensures
        s.frontier[i].1.len() > 0,
        !"#"@.is_prefix_of(s.frontier[i].1),
        !"javascript:"@.is_prefix_of(s.frontier[i].1),
        !"mailto:"@.is_prefix_of(s.frontier[i].1),
        !"tel:"@.is_prefix_of(s.frontier[i].1),
        !s.frontier[i].1.contains('#'),
        parsed_host(s.frontier[i].1) is Some,
        s.same_domain_only ==> host_text(parsed_host(s.frontier[i].1)->0) == s.domain,
{
    assert(s.entry_ok(s.frontier[i]));
}

/// Every recorded URL but the seed holds no fragment and passed the
/// validity filter.
pub proof fn lemma_results_without_fragment(s: CrawlState, i: int)
    requires
        s.filtered(),
        0 <= i < s.results.len(),
        s.results[i].url != s.base_url,
    ensures
        !s.results[i].url.contains('#'),
        s.admits(s.results[i].url),
{
    assert(s.url_ok(s.results[i].url));
}

impl CrawlState {
    /// The URL was claimed, is not in flight and has no record: its fetch
    /// failed or was given up.
    pub open spec fn gave_up(self, url: Seq<char>) -> bool {
        &&& self.visited.contains(url)
        &&& self.pending matches Some(e) ==> e.1 != url
        &&& forall|i: int| 0 <= i < self.results.len() ==> (#[trigger] self.results[i]).url != url
    }
}

/// A failed fetch does not stop the crawl: the frontier, the results and
/// the visited set stay as they were, and the failed URL has no record.
pub proof fn lemma_failure_resilience(s: CrawlState)
    requires
        s.wf(),
        s.pending is Some,
    ensures
        s.failed().frontier == s.frontier,
        s.failed().results == s.results,
        s.failed().visited == s.visited,
        s.failed().next() == s.next(),
        s.pending matches Some(e) ==> s.failed().gave_up(e.1),
{
    assert(s.issued.contains(s.issued.last())) by {
        assert(s.issued[s.issued.len() - 1] == s.issued.last());
    }
}

/// A URL whose fetch failed never gets a record: no step of the crawl
/// undoes `gave_up`.
pub proof fn lemma_gave_up_stays(
    s: CrawlState,
    url: Seq<char>,
    status_code: u16,
    body: Seq<char>,
    timestamp: Timestamp,
)
    requires
        s.wf(),
        s.gave_up(url),
    ensures
        s.next().0.gave_up(url),
        s.fetched(status_code, body, timestamp).gave_up(url),
        s.failed().gave_up(url),
        forall|record: PageView, links: Seq<Seq<char>>| #[trigger]
            s.recorded(record, links).gave_up(url),
{
    if !s.budget_spent() {
        lemma_skip_count(s.frontier, s.visited);
    }
    assert forall|record: PageView, links: Seq<Seq<char>>| #[trigger]
        s.recorded(record, links).gave_up(url) by {
        let t = s.recorded(record, links);
        assert forall|i: int| 0 <= i < t.results.len() implies (#[trigger] t.results[i]).url
            != url by {
            if i < s.results.len() {
                assert(t.results[i] == s.results[i]);
            }
        }
    }
    match s.pending {
        Some(e) => {
            assert(s.recorded(
                page_record(e.1, e.0, page_title(body), status_code, timestamp),
                kept_links(e.1, page_hrefs(body), s.same_domain_only, s.domain),
            ).gave_up(url));
        },
        None => {},
    }
}

/// The hosts of the URLs of `records` that parse and have a host.
pub open spec fn record_hosts(records: Seq<PageView>) -> Set<Seq<char>>
    decreases records.len(),
{
    if records.len() == 0 {
        Set::empty()
    } else {
        let rest = record_hosts(records.drop_last());
        match parsed_host(records.last().url) {
            Some(Some(host)) => rest.insert(host),
            _ => rest,
        }
    }
}

/// The executable crawl engine for one seed.
pub struct UrlFinder {
    base_url: String,
    domain: String,
    max_pages: usize,
    same_domain_only: bool,
    visited_urls: StringHashSet,
    found_urls: Vec<UrlData>,
    frontier: VecDeque<(String, String)>,
    pending: Option<(String, String)>,
    issued: Ghost<Seq<Seq<char>>>,
    issued_depths: Ghost<Seq<nat>>,
    frontier_depths: Ghost<Seq<nat>>,
}

impl View for UrlFinder {
    type V = CrawlState;

    closed spec fn view(&self) -> CrawlState {
        CrawlState {
            base_url: self.base_url@,
            domain: self.domain@,
            max_pages: self.max_pages as nat,
            same_domain_only: self.same_domain_only,
            visited: self.visited_urls@,
            frontier: entries_view(self.frontier@),
            results: records_view(self.found_urls@),
            pending: request_view(self.pending),
            issued: self.issued@,
            issued_depths: self.issued_depths@,
            frontier_depths: self.frontier_depths@,
        }
    }
}

impl UrlFinder {
    /// Sets up the crawl of `base_url`, with only the seed queued.
    pub fn new(base_url: &str, max_pages: usize, same_domain_only: bool) -> (finder: Self)
        requires
            parsed_host(base_url@) is Some,
        ensures
            finder@ == CrawlState::initial(base_url@, max_pages as nat, same_domain_only),
            finder@.wf(),
            finder@.filtered(),
    {
        let domain = match parse_host(base_url) {
            Some(Some(host)) => host,
            _ => String::new(),
        };
        let mut frontier: VecDeque<(String, String)> = VecDeque::new();
        frontier.push_back(("starting_point".to_owned(), base_url.to_owned()));
        let finder = UrlFinder {
            base_url: base_url.to_owned(),
            domain,
            max_pages,
            same_domain_only,
            visited_urls: StringHashSet::new(),
            found_urls: Vec::new(),
            frontier,
            pending: None,
            issued: Ghost(Seq::empty()),
            issued_depths: Ghost(Seq::empty()),
            frontier_depths: Ghost(Seq::<nat>::empty().push(0)),
        };
        proof {
            lemma_initial_wf(base_url@, max_pages as nat, same_domain_only);
            lemma_entries_view_push(Seq::empty(), finder.frontier@[0]);
            assert(finder.frontier@ =~= Seq::empty().push(finder.frontier@[0]));
            assert(entries_view(Seq::empty()) =~= Seq::empty());
            assert(entries_view(finder.frontier@) =~= seq![("starting_point"@, base_url@)]);
            assert(finder.frontier_depths@ =~= seq![0nat]);
            assert(finder@.results =~= Seq::empty());
            assert(finder@ =~= CrawlState::initial(base_url@, max_pages as nat, same_domain_only));
        }
        finder
    }

    /// Sets up the crawl of `base_url` where it is a well-formed absolute
    /// URL, and gives `None` where it is not.
    pub fn try_new(base_url: &str, max_pages: usize, same_domain_only: bool) -> (finder: Option<
        Self,
    >)
        ensures
            finder is Some <==> parsed_host(base_url@) is Some,
            finder matches Some(f) ==> f@ == CrawlState::initial(
                base_url@,
                max_pages as nat,
                same_domain_only,
            ) && f@.wf() && f@.filtered(),
    {
        match parse_host(base_url) {
            Some(_) => Some(Self::new(base_url, max_pages, same_domain_only)),
            None => None,
        }
    }

    /// Decides whether a discovered link is let through: its form is not a
    /// rejected one, it parses as an absolute URL and, under the domain
    /// restriction, its host is exactly the seed's.
    pub fn is_valid_url(&self, url: &str) -> (r: bool)
        ensures
            r == self@.admits(url@),
    {
        if has_rejected_form(url) {
            return false;
        }
        let lookup = parse_host(url);
        host_admitted(&lookup, self.same_domain_only, self.domain.as_str())
    }

    /// Reads a fetched page: builds the page's record and collects the
    /// links that pass the filter. Fails where the body is too long to
    /// parse or the page's own URL does not parse, and only then.
    pub fn process_url(
        &self,
        url: &str,
        found_at: &str,
        status_code: u16,
        body: &str,
        timestamp: Timestamp,
    ) -> (outcome: Result<(UrlData, Vec<String>), FetchError>)
        ensures
            outcome is Ok <==> body_fits(body@) && parsed_host(url@) is Some,
            outcome matches Ok(page) ==> page.0@ == page_record(
                url@,
                found_at@,
                page_title(body@),
                status_code,
                timestamp,
            ) && texts_view(page.1@) == kept_links(
                url@,
                page_hrefs(body@),
                self@.same_domain_only,
                self@.domain,
            ),
            outcome matches Err(e) ==> e == if body_fits(body@) {
                FetchError::MalformedUrl
            } else {
                FetchError::BodyTooLarge
            },
    {
        if body.as_bytes().len() > MAX_BODY_BYTES {
            return Err(FetchError::BodyTooLarge);
        }
        if parse_host(url).is_none() {
            return Err(FetchError::MalformedUrl);
        }
        let title = extract_title(body);
        let record = build_record(url, found_at, title, status_code, timestamp);
        let hrefs = extract_hrefs(body);
        let links = collect_links(url, &hrefs, self.same_domain_only, self.domain.as_str());
        Ok((record, links))
    }

    /// Picks the next URL to fetch, as `CrawlState::next` says, and hands
    /// out its entry: the place of discovery, then the URL. `None` means
    /// that the crawl is over.
    pub fn next_request(&mut self) -> (request: Option<(String, String)>)
        requires
            old(self)@.wf(),
        ensures
            final(self)@ == old(self)@.next().0,
            request_view(request) == old(self)@.next().1,
            final(self)@.wf(),
            old(self)@.filtered() ==> final(self)@.filtered(),
    {
        let ghost start = self@;
        proof {
            lemma_next_wf(start);
            start.issued.unique_seq_to_set();
        }
        self.pending = None;
        if self.visited_urls.len() >= self.max_pages {
            assert(self@ =~= start.next().0);
            return None;
        }
        let ghost mut skipped: int = 0;
        assert(start.frontier.skip(0) =~= start.frontier);
        assert(start.frontier_depths.skip(0) =~= start.frontier_depths);
        loop
            invariant
                start == old(self)@,
                start.wf(),
                start.next().0.wf(),
                start.filtered() ==> start.next().0.filtered(),
                !start.budget_spent(),
                0 <= skipped <= start.frontier.len(),
                self@ == (CrawlState {
                    pending: None,
                    frontier: start.frontier.skip(skipped),
                    frontier_depths: start.frontier_depths.skip(skipped),
                    ..start
                }),
                skip_count(start.frontier, start.visited) == skipped + skip_count(
                    start.frontier.skip(skipped),
                    start.visited,
                ),
            decreases self.frontier@.len(),
        {
            let ghost queue = self.frontier@;
            match self.frontier.pop_front() {
                None => {
                    assert(entries_view(queue) =~= Seq::empty());
                    assert(start.frontier.skip(skipped).len() == 0);
                    assert(self.frontier_depths@ =~= Seq::empty());
                    assert(self@ =~= start.next().0);
                    return None;
                },
                Some(entry) => {
                    let (found_at, url) = entry;
                    proof {
                        lemma_entries_view_tail(queue);
                        assert(start.frontier.skip(skipped).skip(1) =~= start.frontier.skip(
                            skipped + 1,
                        ));
                    }
                    assert(entries_view(queue)[0] == entry_view(entry));
                    assert(entries_view(self.frontier@) =~= start.frontier.skip(skipped + 1));
                    assert(start.frontier.skip(skipped).drop_first() =~= start.frontier.skip(
                        skipped + 1,
                    ));
                    if self.visited_urls.contains(url.as_str()) {
                        self.frontier_depths = Ghost(start.frontier_depths.skip(skipped + 1));
                        proof {
                            skipped = skipped + 1;
                        }
                    } else {
                        self.visited_urls.insert(url.clone());
                        self.pending = Some((found_at.clone(), url.clone()));
                        self.issued = Ghost(start.issued.push(url@));
                        self.issued_depths = Ghost(
                            start.issued_depths.push(start.frontier_depths[skipped]),
                        );
                        self.frontier_depths = Ghost(start.frontier_depths.skip(skipped + 1));
                        assert(self@ =~= start.next().0);
                        return Some((found_at, url));
                    }
                },
            }
        }
    }

    /// Takes in the record of the pending entry's page and the links
    /// found on it, as `CrawlState::recorded` says.
    pub fn record_page(&mut self, record: UrlData, links: Vec<String>)
        requires
            old(self)@.wf(),
        ensures
            final(self)@ == old(self)@.recorded(record@, texts_view(links@)),
            final(self)@.wf(),
            old(self)@.filtered() && old(self)@.links_ok(texts_view(links@))
                ==> final(self)@.filtered(),
    {
        let ghost start = self@;
        let ghost all = texts_view(links@);
        proof {
            lemma_recorded_wf(start, record@, all);
        }
        match self.pending.take() {
            None => {
                assert(self@ =~= start);
            },
            Some(entry) => {
                let (_found_at, url) = entry;
                if !same_text(record.url.as_str(), url.as_str()) {
                    assert(self@ =~= start.failed());
                } else {
                    let ghost depth = (start.issued_depths.last() + 1) as nat;
                    self.found_urls.push(record);
                    assert(records_view(self.found_urls@) =~= start.results.push(record@));
                    let mut i: usize = 0;
                    assert(fresh_entries(url@, all.take(0), start.visited) =~= Seq::empty());
                    while i < links.len()
                        invariant
                            i <= links.len(),
                            all == texts_view(links@),
                            self@ == (CrawlState {
                                results: start.results.push(record@),
                                frontier: start.frontier + fresh_entries(
                                    url@,
                                    all.take(i as int),
                                    start.visited,
                                ),
                                frontier_depths: start.frontier_depths + Seq::new(
                                    fresh_entries(url@, all.take(i as int), start.visited).len(),
                                    |k: int| depth,
                                ),
                                pending: None,
                                ..start
                            }),
                        decreases links.len() - i,
                    {
                        let ghost before = fresh_entries(url@, all.take(i as int), start.visited);
                        assert(all.take(i as int + 1).drop_last() =~= all.take(i as int));
                        assert(all.take(i as int + 1).last() == links@[i as int]@);
                        if !self.visited_urls.contains(links[i].as_str()) {
                            let entry = (url.clone(), links[i].clone());
                            proof {
                                lemma_entries_view_push(self.frontier@, entry);
                            }
                            self.frontier.push_back(entry);
                            self.frontier_depths = Ghost(
                                start.frontier_depths + Seq::new(before.len() + 1, |k: int| depth),
                            );
                            assert(entries_view(self.frontier@) =~= start.frontier + before.push(
                                (url@, links@[i as int]@),
                            ));
                        }
                        i += 1;
                    }
                    assert(all.take(i as int) =~= all);
                    assert(self@ =~= start.recorded(record@, all));
                }
            },
        }
    }

    /// Takes in the page fetched for the pending entry, captured at
    /// `timestamp`, as `CrawlState::fetched` says.
    pub fn record_fetched(&mut self, status_code: u16, body: &str, timestamp: Timestamp)
        requires
            old(self)@.wf(),
        ensures
            final(self)@ == old(self)@.fetched(status_code, body@, timestamp),
            final(self)@.wf(),
            old(self)@.filtered() ==> final(self)@.filtered(),
    {
        let ghost start = self@;
        proof {
            lemma_fetched_wf(start, status_code, body@, timestamp);
        }
        let outcome = match &self.pending {
            None => None,
            Some(entry) => Some(
                self.process_url(entry.1.as_str(), entry.0.as_str(), status_code, body, timestamp),
            ),
        };
        match outcome {
            None => {},
            Some(Err(_)) => {
                self.pending = None;
            },
            Some(Ok(page)) => {
                let (record, links) = page;
                self.record_page(record, links);
            },
        }
    }

    /// Takes in the page fetched for the pending entry, captured now.
    /// Whatever the clock says, the step is `CrawlState::fetched` for some
    /// time of capture.
    pub fn record_success(&mut self, status_code: u16, body: &str)
        requires
            old(self)@.wf(),
        ensures
            exists|timestamp: Timestamp|
                final(self)@ == #[trigger] old(self)@.fetched(status_code, body@, timestamp),
            final(self)@.wf(),
            old(self)@.filtered() ==> final(self)@.filtered(),
    {
        let now = current_time();
        self.record_fetched(status_code, body, now);
    }

    /// Takes in the failure of the fetch of the pending entry, as
    /// `CrawlState::failed` says: the crawl goes on without it.
    pub fn record_failure(&mut self)
        requires
            old(self)@.wf(),
        ensures
            final(self)@ == old(self)@.failed(),
            final(self)@.wf(),
            old(self)@.filtered() ==> final(self)@.filtered(),
    {
        self.pending = None;
    }

    /// Tells whether the crawl is over: the budget is used up or nothing
    /// is queued.
    pub fn is_done(&self) -> (r: bool)
        ensures
            r == self@.done(),
    {
        self.visited_urls.len() >= self.max_pages || self.frontier.len() == 0
    }

    /// The number of different hosts among the recorded pages, counting
    /// the pages whose URL parses and has a host.
    pub fn unique_domains(&self) -> (count: usize)
        ensures
            count == record_hosts(self@.results).len(),
    {
        let mut hosts = StringHashSet::new();
        let mut i: usize = 0;
        let ghost all = records_view(self.found_urls@);
        assert(all.take(0) =~= Seq::empty());
        while i < self.found_urls.len()
            invariant
                i <= self.found_urls.len(),
                all == records_view(self.found_urls@),
                hosts@ == record_hosts(all.take(i as int)),
            decreases self.found_urls.len() - i,
        {
            assert(all.take(i as int + 1).drop_last() =~= all.take(i as int));
            assert(all.take(i as int + 1).last() == self.found_urls@[i as int]@);
            match parse_host(self.found_urls[i].url.as_str()) {
                Some(Some(host)) => {
                    hosts.insert(host);
                },
                _ => {},
            }
            i += 1;
        }
        assert(all.take(i as int) =~= all);
        hosts.len()
    }

    /// The records of the pages processed so far, in processing order.
    pub fn found_urls(&self) -> (records: &Vec<UrlData>)
        ensures
            records_view(records@) == self@.results,
    {
        &self.found_urls
    }

    /// The number of URLs claimed so far.
    pub fn visited_count(&self) -> (count: usize)
        ensures
            count == self@.visited.len(),
    {
        self.visited_urls.len()
    }

    /// Tells whether `url` has been claimed.
    pub fn has_visited(&self, url: &str) -> (r: bool)
        ensures
            r == self@.visited.contains(url@),
    {
        self.visited_urls.contains(url)
    }

    /// The number of entries that wait in the frontier.
    pub fn frontier_len(&self) -> (count: usize)
        ensures
            count == self@.frontier.len(),
    {
        self.frontier.len()
    }

    /// The seed URL.
    pub fn base_url(&self) -> (url: &str)
        ensures
            url@ == self@.base_url,
    {
        self.base_url.as_str()
    }

    /// The seed's host, empty where the seed has none.
    pub fn domain(&self) -> (host: &str)
        ensures
            host@ == self@.domain,
    {
        self.domain.as_str()
    }

    /// The page budget.
    pub fn max_pages(&self) -> (budget: usize)
        ensures
            budget == self@.max_pages,
    {
        self.max_pages
    }

    /// Whether discovery is restricted to the seed's host.
    pub fn same_domain_only(&self) -> (flag: bool)
        ensures
            flag == self@.same_domain_only,
    {
        self.same_domain_only
    }

    /// The record collection to store after this crawl: the merge of the
    /// stored records `existing` with the records of this crawl, sorted by
    /// URL, one record for each URL; of two records with one URL the
    /// stored one stays.
    pub fn merged_results(&self, existing: &Vec<UrlData>) -> (merged: Vec<UrlData>)
        ensures
            is_merge_of(records_view(merged@), records_view(existing@) + self@.results),
    {
        merge_records(existing, &self.found_urls)
    }

    /// The list text to store after this crawl: the sorted union of the
    /// URLs that the stored text `existing` holds and the URLs recorded in
    /// this crawl.
    pub fn exported_urls(&self, existing: &str) -> (text: String)
        ensures
            text@ == render_list(sorted_union(list_tokens(existing@), record_urls(self@.results))),
            is_union_list(
                sorted_union(list_tokens(existing@), record_urls(self@.results)),
                list_tokens(existing@),
                record_urls(self@.results),
            ),
    {
        merge_url_list(existing, &self.found_urls)
    }
}

} // verus!

//! The order of a whole crawl over a link graph: when every fetch succeeds,
//! pages are processed in the order of their distance from the seed, the
//! distance being the least number of links that lead from the seed to the
//! page.

use crate::engine::{
    fresh_entries, lemma_fresh_entries_from_links, lemma_initial_wf, lemma_next_wf,
    lemma_recorded_wf, lemma_skip_count, skip_count, CrawlState, Entry,
};
use crate::page::PageView;
use vstd::prelude::*;

verus! {

/// A link graph: for each URL, the links that its page yields.
pub type LinkGraph = spec_fn(Seq<char>) -> Seq<Seq<char>>;

/// What is recorded for an entry that was fetched.
pub type Recorder = spec_fn(Entry) -> PageView;

/// Whether the page of `from` links to `to`.
pub open spec fn edge(links: LinkGraph, from: Seq<char>, to: Seq<char>) -> bool {
    links(from).contains(to)
}

/// Whether `hops` links lead from `seed` to `url`.
pub open spec fn reach(links: LinkGraph, seed: Seq<char>, url: Seq<char>, hops: nat) -> bool
    decreases hops,
{
    if hops == 0 {
        url == seed
    } else {
        exists|via: Seq<char>|
            reach(links, seed, via, (hops - 1) as nat) && #[trigger] edge(links, via, url)
    }
}

/// `url` was handed out at a distance label of at most `bound`.
pub open spec fn issued_within(s: CrawlState, url: Seq<char>, bound: nat) -> bool {
    exists|j: int| 0 <= j < s.issued.len() && #[trigger] s.issued[j] == url && s.issued_depths[j] <= bound
}

/// `url` is not visited and waits in the frontier with a distance label of
/// at most `bound`.
pub open spec fn waits_within(s: CrawlState, url: Seq<char>, bound: nat) -> bool {
    &&& !s.visited.contains(url)
    &&& exists|k: int|
        0 <= k < s.frontier.len() && (#[trigger] s.frontier[k]).1 == url && s.frontier_depths[k]
            <= bound
}

/// Some URL that is not visited waits in the frontier with a distance
/// label of at most `bound`.
pub open spec fn some_waits_within(s: CrawlState, bound: nat) -> bool {
    exists|k: int|
        0 <= k < s.frontier.len() && !s.visited.contains((#[trigger] s.frontier[k]).1)
            && s.frontier_depths[k] <= bound
}

/// The state of a crawl of the graph `links` in which every fetch so far
/// succeeded: nothing is in flight, the results are the pages handed out,
/// every distance label is the length of a path from the seed, and every
/// link of a processed page was handed out or waits, no farther than one
/// link beyond that page.
pub open spec fn explores(s: CrawlState, links: LinkGraph) -> bool {
    &&& s.pending is None
    &&& s.results.len() == s.issued.len()
    &&& forall|i: int| 0 <= i < s.issued.len() ==> (#[trigger] s.results[i]).url == s.issued[i]
    &&& s.issued.len() == 0 ==> s.frontier.len() > 0 && s.frontier[0].1 == s.base_url
    &&& s.issued.len() > 0 ==> s.issued[0] == s.base_url && s.issued_depths[0] == 0
    &&& forall|i: int|
        0 <= i < s.issued.len() ==> reach(
            links,
            s.base_url,
            #[trigger] s.issued[i],
            s.issued_depths[i],
        )
    &&& forall|k: int|
        0 <= k < s.frontier.len() ==> reach(
            links,
            s.base_url,
            (#[trigger] s.frontier[k]).1,
            s.frontier_depths[k],
        )
    &&& forall|i: int, to: Seq<char>|
        0 <= i < s.issued.len() && #[trigger] edge(links, s.issued[i], to) ==> issued_within(
            s,
            to,
            s.issued_depths[i] + 1,
        ) || waits_within(s, to, s.issued_depths[i] + 1)
}

/// One round of a crawl in which the fetch succeeds: the next URL is
/// picked, and its record and the links of its page are taken in.
pub open spec fn visit(s: CrawlState, links: LinkGraph, recorder: Recorder) -> CrawlState {
    match s.next().1 {
        Some(e) => s.next().0.recorded(recorder(e), links(e.1)),
        None => s.next().0,
    }
}

/// The state of the crawl of `base_url` after `rounds` rounds.
pub open spec fn crawl(
    base_url: Seq<char>,
    max_pages: nat,
    same_domain_only: bool,
    links: LinkGraph,
    recorder: Recorder,
    rounds: nat,
) -> CrawlState
    decreases rounds,
{
    if rounds == 0 {
        CrawlState::initial(base_url, max_pages, same_domain_only)
    } else {
        visit(
            crawl(base_url, max_pages, same_domain_only, links, recorder, (rounds - 1) as nat),
            links,
            recorder,
        )
    }
}

/// One more link leads one hop farther.
pub proof fn lemma_reach_step(
    links: LinkGraph,
    seed: Seq<char>,
    via: Seq<char>,
    to: Seq<char>,
    hops: nat,
)
    requires
        reach(links, seed, via, hops),
        edge(links, via, to),
    ensures
        reach(links, seed, to, hops + 1),
{
    assert(((hops + 1) - 1) as nat == hops);
}

/// What is reached by some links is reached over a page one link nearer.
pub proof fn lemma_reach_back(links: LinkGraph, seed: Seq<char>, to: Seq<char>, hops: nat) -> (via:
    Seq<char>)
    requires
        hops > 0,
        reach(links, seed, to, hops),
    ensures
        reach(links, seed, via, (hops - 1) as nat),
        edge(links, via, to),
{
    choose|via: Seq<char>|
        reach(links, seed, via, (hops - 1) as nat) && #[trigger] edge(links, via, to)
}

/// Each link that is not visited has a fresh entry.
pub proof fn lemma_fresh_entry_of_link(
    source: Seq<char>,
    links: Seq<Seq<char>>,
    visited: Set<Seq<char>>,
    to: Seq<char>,
)
    requires
        links.contains(to),
        !visited.contains(to),
    ensures
        fresh_entries(source, links, visited).contains((source, to)),
    decreases links.len(),
{
    let fresh = fresh_entries(source, links, visited);
    if links.last() == to {
        assert(fresh[fresh.len() - 1] == (source, to));
    } else {
        let rest = links.drop_last();
        let at = choose|at: int| 0 <= at < links.len() && links[at] == to;
        assert(rest[at] == to);
        lemma_fresh_entry_of_link(source, rest, visited, to);
        let shorter = fresh_entries(source, rest, visited);
        let k = choose|k: int| 0 <= k < shorter.len() && shorter[k] == (source, to);
        assert(fresh[k] == (source, to));
    }
}

/// A round of a crawl in which the fetch succeeds keeps the invariants.
pub proof fn lemma_visit_explores(s: CrawlState, links: LinkGraph, recorder: Recorder)
    requires
        s.wf(),
        explores(s, links),
        forall|e: Entry| (#[trigger] recorder(e)).url == e.1,
    ensures
        visit(s, links, recorder).wf(),
        explores(visit(s, links, recorder), links),
{
    let t = s.next().0;
    lemma_next_wf(s);
    s.issued.unique_seq_to_set();
    if s.budget_spent() {
        assert(t =~= s);
    } else {
        let k = skip_count(s.frontier, s.visited) as int;
        lemma_skip_count(s.frontier, s.visited);
        if k >= s.frontier.len() {
            if s.issued.len() == 0 {
                assert(s.visited.contains(s.frontier[0].1));
            }
            assert forall|i: int, to: Seq<char>|
                0 <= i < t.issued.len() && #[trigger] edge(
                    links,
                    t.issued[i],
                    to,
                ) implies issued_within(t, to, t.issued_depths[i] + 1) || waits_within(
                t,
                to,
                t.issued_depths[i] + 1,
            ) by {
                let bound = s.issued_depths[i] + 1;
                assert(issued_within(s, to, bound) || waits_within(s, to, bound));
                if !issued_within(s, to, bound) {
                    let m = choose|m: int|
                        0 <= m < s.frontier.len() && (#[trigger] s.frontier[m]).1 == to
                            && s.frontier_depths[m] <= bound;
                    assert(s.visited.contains(s.frontier[m].1));
                } else {
                    let j = choose|j: int|
                        0 <= j < s.issued.len() && #[trigger] s.issued[j] == to
                            && s.issued_depths[j] <= bound;
                    assert(t.issued[j] == to);
                }
            }
        } else {
            let e = s.frontier[k];
            let label = s.frontier_depths[k];
            let r = t.recorded(recorder(e), links(e.1));
            lemma_recorded_wf(t, recorder(e), links(e.1));
            let fresh = fresh_entries(e.1, links(e.1), t.visited);
            let old_len = s.issued.len() as int;
            let kept = s.frontier.len() - k - 1;
            assert(r.issued[old_len] == e.1);
            if old_len == 0 {
                assert(!s.visited.contains(s.frontier[0].1));
                assert(k == 0);
            }
            assert forall|i: int| 0 <= i < r.issued.len() implies (#[trigger] r.results[i]).url
                == r.issued[i] by {
                if i < old_len {
                    assert(r.results[i] == s.results[i]);
                }
            }
            assert forall|i: int| 0 <= i < r.issued.len() implies reach(
                links,
                r.base_url,
                #[trigger] r.issued[i],
                r.issued_depths[i],
            ) by {
                if i < old_len {
                    assert(r.issued[i] == s.issued[i]);
                } else {
                    assert(reach(links, s.base_url, s.frontier[k].1, s.frontier_depths[k]));
                }
            }
            assert forall|m: int| 0 <= m < r.frontier.len() implies reach(
                links,
                r.base_url,
                (#[trigger] r.frontier[m]).1,
                r.frontier_depths[m],
            ) by {
                if m < kept {
                    assert(r.frontier[m] == s.frontier[m + k + 1]);
                    assert(r.frontier_depths[m] == s.frontier_depths[m + k + 1]);
                    assert(reach(
                        links,
                        s.base_url,
                        s.frontier[m + k + 1].1,
                        s.frontier_depths[m + k + 1],
                    ));
                } else {
                    lemma_fresh_entries_from_links(e.1, links(e.1), t.visited);
                    assert(r.frontier[m] == fresh[m - kept]);
                    assert(links(e.1).contains(fresh[m - kept].1));
                    assert(reach(links, s.base_url, s.frontier[k].1, label));
                    assert(r.frontier_depths[m] == label + 1);
                    lemma_reach_step(links, s.base_url, e.1, r.frontier[m].1, label);
                }
            }
            assert forall|i: int, to: Seq<char>|
                0 <= i < r.issued.len() && #[trigger] edge(
                    links,
                    r.issued[i],
                    to,
                ) implies issued_within(r, to, r.issued_depths[i] + 1) || waits_within(
                r,
                to,
                r.issued_depths[i] + 1,
            ) by {
                let bound = r.issued_depths[i] + 1;
                if i == old_len {
                    if r.visited.contains(to) {
                        let j = choose|j: int| 0 <= j < r.issued.len() && r.issued[j] == to;
                        assert(r.issued_depths[j] <= r.issued_depths[old_len]);
                        assert(issued_within(r, to, bound));
                    } else {
                        lemma_fresh_entry_of_link(e.1, links(e.1), t.visited, to);
                        let f = choose|f: int| 0 <= f < fresh.len() && fresh[f] == (e.1, to);
                        assert(r.frontier[kept + f] == fresh[f]);
                        assert(r.frontier_depths[kept + f] == label + 1);
                        assert(waits_within(r, to, bound));
                    }
                } else {
                    assert(r.issued[i] == s.issued[i]);
                    assert(issued_within(s, to, bound) || waits_within(s, to, bound));
                    if issued_within(s, to, bound) {
                        let j = choose|j: int|
                            0 <= j < s.issued.len() && #[trigger] s.issued[j] == to
                                && s.issued_depths[j] <= bound;
                        assert(r.issued[j] == to);
                        assert(issued_within(r, to, bound));
                    } else {
                        let m = choose|m: int|
                            0 <= m < s.frontier.len() && (#[trigger] s.frontier[m]).1 == to
                                && s.frontier_depths[m] <= bound;
                        if m < k {
                            assert(s.visited.contains(s.frontier[m].1));
                        }
                        if to == e.1 {
                            assert(s.frontier_depths[k] <= s.frontier_depths[m]);
                            assert(issued_within(r, to, bound));
                        } else {
                            assert(r.frontier[m - k - 1] == s.frontier[m]);
                            assert(r.frontier_depths[m - k - 1] == s.frontier_depths[m]);
                            assert(waits_within(r, to, bound));
                        }
                    }
                }
            }
        }
    }
}

/// Every state of a crawl in which each fetch succeeds keeps the
/// invariants.
pub proof fn lemma_crawl_explores(
    base_url: Seq<char>,
    max_pages: nat,
    same_domain_only: bool,
    links: LinkGraph,
    recorder: Recorder,
    rounds: nat,
)
    requires
        forall|e: Entry| (#[trigger] recorder(e)).url == e.1,
    ensures
        crawl(base_url, max_pages, same_domain_only, links, recorder, rounds).wf(),
        explores(crawl(base_url, max_pages, same_domain_only, links, recorder, rounds), links),
    decreases rounds,
{
    if rounds == 0 {
        lemma_initial_wf(base_url, max_pages, same_domain_only);
        let s = CrawlState::initial(base_url, max_pages, same_domain_only);
        assert(reach(links, base_url, s.frontier[0].1, 0));
    } else {
        let before = crawl(
            base_url,
            max_pages,
            same_domain_only,
            links,
            recorder,
            (rounds - 1) as nat,
        );
        lemma_crawl_explores(
            base_url,
            max_pages,
            same_domain_only,
            links,
            recorder,
            (rounds - 1) as nat,
        );
        lemma_visit_explores(before, links, recorder);
    }
}

/// A URL that `hops` links lead to was handed out with a distance label of
/// at most `hops`, or something not visited waits in the frontier with
/// such a label.
pub proof fn lemma_reached_within(s: CrawlState, links: LinkGraph, url: Seq<char>, hops: nat)
    requires
        s.wf(),
        explores(s, links),
        reach(links, s.base_url, url, hops),
    ensures
        issued_within(s, url, hops) || some_waits_within(s, hops),
    decreases hops,
{
    s.issued.unique_seq_to_set();
    if hops == 0 {
        if s.issued.len() == 0 {
            assert(!s.visited.contains(s.frontier[0].1));
            assert(s.frontier_depths[0] == 0);
            assert(some_waits_within(s, 0nat));
        } else {
            assert(s.issued[0] == url);
            assert(issued_within(s, url, 0nat));
        }
    } else {
        let via = lemma_reach_back(links, s.base_url, url, hops);
        lemma_reached_within(s, links, via, (hops - 1) as nat);
        if issued_within(s, via, (hops - 1) as nat) {
            let j = choose|j: int|
                0 <= j < s.issued.len() && #[trigger] s.issued[j] == via && s.issued_depths[j]
                    <= hops - 1;
            assert(edge(links, s.issued[j], url));
            let bound = s.issued_depths[j] + 1;
            assert(issued_within(s, url, bound) || waits_within(s, url, bound));
            if issued_within(s, url, bound) {
                let i = choose|i: int|
                    0 <= i < s.issued.len() && #[trigger] s.issued[i] == url
                        && s.issued_depths[i] <= bound;
                assert(issued_within(s, url, hops));
            } else {
                let m = choose|m: int|
                    0 <= m < s.frontier.len() && (#[trigger] s.frontier[m]).1 == url
                        && s.frontier_depths[m] <= bound;
                assert(some_waits_within(s, hops));
            }
        } else {
            let m = choose|m: int|
                0 <= m < s.frontier.len() && !s.visited.contains((#[trigger] s.frontier[m]).1)
                    && s.frontier_depths[m] <= hops - 1;
            assert(some_waits_within(s, hops));
        }
    }
}

/// The distance label of a page handed out is its distance from the seed:
/// as many links lead from the seed to it, and no fewer do.
pub proof fn lemma_label_is_distance(s: CrawlState, links: LinkGraph, i: int, hops: nat)
    requires
        s.wf(),
        explores(s, links),
        0 <= i < s.issued.len(),
    ensures
        reach(links, s.base_url, s.issued[i], s.issued_depths[i]),
        reach(links, s.base_url, s.issued[i], hops) ==> s.issued_depths[i] <= hops,
{
    if reach(links, s.base_url, s.issued[i], hops) {
        lemma_reached_within(s, links, s.issued[i], hops);
        if issued_within(s, s.issued[i], hops) {
            let j = choose|j: int|
                0 <= j < s.issued.len() && #[trigger] s.issued[j] == s.issued[i]
                    && s.issued_depths[j] <= hops;
            assert(j == i);
        } else {
            let m = choose|m: int|
                0 <= m < s.frontier.len() && !s.visited.contains((#[trigger] s.frontier[m]).1)
                    && s.frontier_depths[m] <= hops;
            assert(s.issued_depths[i] <= s.issued_depths[s.issued_depths.len() - 1]);
            assert(s.issued_depths.last() <= s.frontier_depths[m]);
        }
    }
}

/// The traversal is breadth-first: in a crawl of a link graph in which
/// every fetch succeeds, a page recorded earlier is no farther from the
/// seed than a page recorded later. Whatever number of links leads from
/// the seed to the later page, as many or fewer lead to the earlier one.
pub proof fn lemma_breadth_first_by_distance(
    base_url: Seq<char>,
    max_pages: nat,
    same_domain_only: bool,
    links: LinkGraph,
    recorder: Recorder,
    rounds: nat,
    i: int,
    j: int,
    hops: nat,
)
    requires
        forall|e: Entry| (#[trigger] recorder(e)).url == e.1,
        0 <= i <= j < crawl(
            base_url,
            max_pages,
            same_domain_only,
            links,
            recorder,
            rounds,
        ).results.len(),
        reach(
            links,
            base_url,
            crawl(base_url, max_pages, same_domain_only, links, recorder, rounds).results[j].url,
            hops,
        ),
    ensures
        exists|fewer: nat|
            fewer <= hops && #[trigger] reach(
                links,
                base_url,
                crawl(
                    base_url,
                    max_pages,
                    same_domain_only,
                    links,
                    recorder,
                    rounds,
                ).results[i].url,
                fewer,
            ),
{
    let s = crawl(base_url, max_pages, same_domain_only, links, recorder, rounds);
    lemma_crawl_explores(base_url, max_pages, same_domain_only, links, recorder, rounds);
    lemma_crawl_base(base_url, max_pages, same_domain_only, links, recorder, rounds);
    assert(s.results[i].url == s.issued[i]);
    assert(s.results[j].url == s.issued[j]);
    lemma_label_is_distance(s, links, j, hops);
    lemma_label_is_distance(s, links, i, hops);
    assert(s.issued_depths[i] <= s.issued_depths[j]);
    assert(reach(links, base_url, s.results[i].url, s.issued_depths[i]));
}

/// A crawl keeps its seed.
pub proof fn lemma_crawl_base(
    base_url: Seq<char>,
    max_pages: nat,
    same_domain_only: bool,
    links: LinkGraph,
    recorder: Recorder,
    rounds: nat,
)
    ensures
        crawl(base_url, max_pages, same_domain_only, links, recorder, rounds).base_url == base_url,
    decreases rounds,
{
    if rounds > 0 {
        lemma_crawl_base(base_url, max_pages, same_domain_only, links, recorder, (rounds - 1) as nat);
    }
}

} // verus!

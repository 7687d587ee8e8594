//! Page records, and what is read out of a fetched page: its title and the
//! links that pass the validity filter.

use crate::link::{
    cut_fragment, has_rejected_form, is_rejected_form, lemma_without_fragment, link_allowed,
    link_passes, parse_host, parsed_host, resolve_href, resolved_href, text_view,
    without_fragment,
};
use crate::text::{trim, trimmed};
use vstd::prelude::*;
use vstd::utf8::encode_utf8;

verus! {

/// The longest page body, in bytes, that is handed to the HTML parser. The
/// parser keeps text in buffers that cannot grow beyond 2^31 bytes, and a
/// byte of a page can become three bytes of text there.
pub const MAX_BODY_BYTES: usize = 715_827_882;

/// Whether a page body is short enough to be parsed.
pub open spec fn body_fits(body: Seq<char>) -> bool {
    encode_utf8(body).len() <= MAX_BODY_BYTES
}

/// A moment in time, as seconds and nanoseconds since the Unix epoch, UTC.
#[derive(Clone, Copy, Debug, PartialEq, Eq, Structural)]
pub struct Timestamp {
    pub secs: i64,
    pub nanos: u32,
}

/// One discovered page.
#[derive(Debug, PartialEq, Eq)]
pub struct UrlData {
    /// The page's absolute URL.
    pub url: String,
    /// The page's title with surrounding white space removed, or the URL
    /// where the page has none.
    pub title: String,
    /// The URL on whose page this one was found, or `starting_point`.
    pub found_at: String,
    /// When the page was captured.
    pub timestamp: Timestamp,
    /// The HTTP status of the fetch.
    pub status_code: u16,
}

/// The mathematical content of a page record.
pub ghost struct PageView {
    pub url: Seq<char>,
    pub title: Seq<char>,
    pub found_at: Seq<char>,
    pub timestamp: Timestamp,
    pub status_code: u16,
}

impl View for UrlData {
    type V = PageView;

    open spec fn view(&self) -> PageView {
        PageView {
            url: self.url@,
            title: self.title@,
            found_at: self.found_at@,
            timestamp: self.timestamp,
            status_code: self.status_code,
        }
    }
}

impl Clone for UrlData {
    fn clone(&self) -> (copy: Self)
        ensures
            copy@ == self@,
    {
        UrlData {
            url: self.url.clone(),
            title: self.title.clone(),
            found_at: self.found_at.clone(),
            timestamp: self.timestamp,
            status_code: self.status_code,
        }
    }
}

/// Why a page could not be processed.
#[derive(Clone, Copy, Debug, PartialEq, Eq, Structural)]
pub enum FetchError {
    /// The page's body is longer than `MAX_BODY_BYTES`.
    BodyTooLarge,
    /// The page's own URL does not parse as an absolute URL.
    MalformedUrl,
}

/// The views of a sequence of strings.
pub open spec fn texts_view(texts: Seq<String>) -> Seq<Seq<char>> {
    texts.map_values(|t: String| t@)
}

/// The views of a sequence of optional references.
pub open spec fn hrefs_view(hrefs: Seq<Option<String>>) -> Seq<Option<Seq<char>>> {
    hrefs.map_values(|h: Option<String>| text_view(h))
}

/// The views of a sequence of page records.
pub open spec fn records_view(records: Seq<UrlData>) -> Seq<PageView> {
    records.map_values(|r: UrlData| r@)
}

/// The inner HTML of the first `title` element that the `scraper` crate
/// finds in the document `html`, if there is one.
pub uninterp spec fn page_title(html: Seq<char>) -> Option<Seq<char>>;

/// For each element that the `scraper` crate selects by `a[href]` in the
/// document `html`, in the order of the selection, the value of its `href`
/// attribute, if it has one.
pub uninterp spec fn page_hrefs(html: Seq<char>) -> Seq<Option<Seq<char>>>;

/// Parses `html` with `scraper::Html::parse_document`, selects `title`
/// (`Selector::parse`, `Html::select`) and hands out the first match's
/// `ElementRef::inner_html`. The result is a function of `html` alone,
/// named `page_title`; nothing more is claimed of it. The parser panics
/// where a text buffer of it outgrows its limit, which a body within
/// `MAX_BODY_BYTES` cannot bring about.
#[verifier::external_body]
pub(crate) fn extract_title(html: &str) -> (title: Option<String>)
    requires
        body_fits(html@),
    ensures
        text_view(title) == page_title(html@),
{
    let document = scraper::Html::parse_document(html);
    match scraper::Selector::parse("title") {
        Ok(selector) => document.select(&selector).next().map(|t| t.inner_html()),
        Err(_) => None,
    }
}

/// Parses `html` with `scraper::Html::parse_document`, selects `a[href]`
/// (`Selector::parse`, `Html::select`) and hands out what `Element::attr`
/// gives for `href` on each match, in the order of the selection. The
/// result is a function of `html` alone, named `page_hrefs`; nothing more
/// is claimed of it. The parser panics where a text buffer of it outgrows
/// its limit, which a body within `MAX_BODY_BYTES` cannot bring about.
#[verifier::external_body]
pub(crate) fn extract_hrefs(html: &str) -> (hrefs: Vec<Option<String>>)
    requires
        body_fits(html@),
    ensures
        hrefs_view(hrefs@) == page_hrefs(html@),
{
    let document = scraper::Html::parse_document(html);
    match scraper::Selector::parse("a[href]") {
        Ok(selector) => document.select(&selector).map(
            |a| a.value().attr("href").map(|h| h.to_string()),
        ).collect(),
        Err(_) => Vec::new(),
    }
}

/// Reads the clock with `chrono::Utc::now` and hands out the moment's
/// seconds (`DateTime::timestamp`) and nanoseconds
/// (`DateTime::timestamp_subsec_nanos`). Nothing is claimed of the result.
#[verifier::external_body]
pub(crate) fn current_time() -> (now: Timestamp) {
    let now = chrono::Utc::now();
    Timestamp { secs: now.timestamp(), nanos: now.timestamp_subsec_nanos() }
}

/// The title recorded for a page: the extracted title, or the page's URL
/// where none was found, with surrounding white space removed.
pub open spec fn title_for(url: Seq<char>, found: Option<Seq<char>>) -> Seq<char> {
    trimmed(
        match found {
            Some(t) => t,
            None => url,
        },
    )
}

/// The record of a page, given the title found in it.
pub open spec fn page_record(
    url: Seq<char>,
    found_at: Seq<char>,
    found_title: Option<Seq<char>>,
    status_code: u16,
    timestamp: Timestamp,
) -> PageView {
    PageView { url, title: title_for(url, found_title), found_at, timestamp, status_code }
}

/// What a reference found on the page `base` leads to. A missing
/// reference and one of a rejected form (empty, a fragment reference, or
/// of the schemes `javascript:`, `mailto:`, `tel:`) lead nowhere. Any
/// other is resolved against the page's URL and, where it resolves, leads
/// to the resolved URL without its fragment.
pub open spec fn link_target(base: Seq<char>, href: Option<Seq<char>>) -> Option<Seq<char>> {
    match href {
        Some(h) => if is_rejected_form(h) {
            None
        } else {
            match resolved_href(base, h) {
                Some(resolved) => Some(without_fragment(resolved)),
                None => None,
            }
        },
        None => None,
    }
}

/// The links taken from a page: the target of each reference, in order,
/// kept where there is one and it passes the validity filter. Nothing is
/// removed for occurring twice.
pub open spec fn kept_links(
    base: Seq<char>,
    hrefs: Seq<Option<Seq<char>>>,
    same_domain_only: bool,
    domain: Seq<char>,
) -> Seq<Seq<char>>
    decreases hrefs.len(),
{
    if hrefs.len() == 0 {
        Seq::empty()
    } else {
        let rest = kept_links(base, hrefs.drop_last(), same_domain_only, domain);
        match link_target(base, hrefs.last()) {
            Some(target) => if link_allowed(
                target,
                parsed_host(target),
                same_domain_only,
                domain,
            ) {
                rest.push(target)
            } else {
                rest
            },
            None => rest,
        }
    }
}

/// Every kept link passes the validity filter and holds no fragment.
pub proof fn lemma_kept_links_allowed(
    base: Seq<char>,
    hrefs: Seq<Option<Seq<char>>>,
    same_domain_only: bool,
    domain: Seq<char>,
)
    ensures
        forall|i: int|
            0 <= i < kept_links(base, hrefs, same_domain_only, domain).len() ==> {
                &&& link_allowed(
                    #[trigger] kept_links(base, hrefs, same_domain_only, domain)[i],
                    parsed_host(kept_links(base, hrefs, same_domain_only, domain)[i]),
                    same_domain_only,
                    domain,
                )
                &&& !kept_links(base, hrefs, same_domain_only, domain)[i].contains('#')
            },
    decreases hrefs.len(),
{
    if hrefs.len() > 0 {
        lemma_kept_links_allowed(base, hrefs.drop_last(), same_domain_only, domain);
        match hrefs.last() {
            Some(h) => match resolved_href(base, h) {
                Some(resolved) => {
                    lemma_without_fragment(resolved);
                },
                None => {},
            },
            None => {},
        }
    }
}

/// References that lead nowhere add no link.
pub proof fn lemma_kept_links_skip(
    base: Seq<char>,
    hrefs: Seq<Option<Seq<char>>>,
    same_domain_only: bool,
    domain: Seq<char>,
)
    requires
        forall|i: int|
            0 <= i < hrefs.len() ==> (#[trigger] hrefs[i] matches Some(h) ==> is_rejected_form(h)),
    ensures
        kept_links(base, hrefs, same_domain_only, domain) == Seq::<Seq<char>>::empty(),
    decreases hrefs.len(),
{
    if hrefs.len() > 0 {
        assert forall|i: int| 0 <= i < hrefs.drop_last().len() implies (
        #[trigger] hrefs.drop_last()[i] matches Some(h) ==> is_rejected_form(h)) by {
            assert(hrefs.drop_last()[i] == hrefs[i]);
        }
        lemma_kept_links_skip(base, hrefs.drop_last(), same_domain_only, domain);
        assert(hrefs[hrefs.len() - 1] == hrefs.last());
    }
}

/// Builds the record of a page from the title found in it.
pub fn build_record(
    url: &str,
    found_at: &str,
    found_title: Option<String>,
    status_code: u16,
    timestamp: Timestamp,
) -> (record: UrlData)
    ensures
        record@ == page_record(url@, found_at@, text_view(found_title), status_code, timestamp),
{
    let title = match found_title {
        Some(t) => trim(t.as_str()),
        None => trim(url),
    };
    UrlData {
        url: url.to_owned(),
        title,
        found_at: found_at.to_owned(),
        timestamp,
        status_code,
    }
}

/// Takes the links out of the references found on the page `base`:
/// references of a rejected form are passed over, the others are resolved
/// and freed of their fragment, and what passes the validity filter is
/// kept.
pub fn collect_links(
    base: &str,
    hrefs: &Vec<Option<String>>,
    same_domain_only: bool,
    domain: &str,
) -> (links: Vec<String>)
    ensures
        texts_view(links@) == kept_links(base@, hrefs_view(hrefs@), same_domain_only, domain@),
{
    let mut links: Vec<String> = Vec::new();
    let mut i: usize = 0;
    assert(hrefs_view(hrefs@).take(0) =~= Seq::empty());
    assert(texts_view(links@) =~= Seq::empty());
    while i < hrefs.len()
        invariant
            i <= hrefs.len(),
            texts_view(links@) == kept_links(
                base@,
                hrefs_view(hrefs@).take(i as int),
                same_domain_only,
                domain@,
            ),
        decreases hrefs.len() - i,
    {
        let ghost before = texts_view(links@);
        let ghost prefix = hrefs_view(hrefs@).take(i as int + 1);
        assert(prefix.drop_last() =~= hrefs_view(hrefs@).take(i as int));
        assert(prefix.last() == text_view(hrefs@[i as int]));
        let target = match &hrefs[i] {
            Some(href) => if has_rejected_form(href.as_str()) {
                None
            } else {
                match resolve_href(base, href.as_str()) {
                    Some(resolved) => Some(cut_fragment(resolved.as_str())),
                    None => None,
                }
            },
            None => None,
        };
        match target {
            Some(target) => {
                let lookup = parse_host(target.as_str());
                if link_passes(target.as_str(), &lookup, same_domain_only, domain) {
                    links.push(target);
                    assert(texts_view(links@) =~= before.push(target@));
                }
            },
            None => {},
        }
        i += 1;
    }
    assert(hrefs_view(hrefs@).take(i as int) =~= hrefs_view(hrefs@));
    links
}

} // verus!

//! The validity filter for discovered links, and what the `url` crate
//! computes for it.

use crate::text::{same_text, slice_of, starts_with, string_of, to_chars};
use vstd::prelude::*;

verus! {

/// What the `url` crate makes of `text` as an absolute URL: `None` where it
/// does not parse, else the URL's host, itself `None` where the URL has none.
pub uninterp spec fn parsed_host(text: Seq<char>) -> Option<Option<Seq<char>>>;

/// What the `url` crate makes of the reference `href` found on the page
/// `base`: `None` where `base` does not parse or `href` cannot be resolved
/// against it, else the text of the absolute URL.
pub uninterp spec fn resolved_href(base: Seq<char>, href: Seq<char>) -> Option<Seq<char>>;

/// The view of a host lookup.
pub open spec fn lookup_view(lookup: Option<Option<String>>) -> Option<Option<Seq<char>>> {
    match lookup {
        None => None,
        Some(None) => Some(None),
        Some(Some(h)) => Some(Some(h@)),
    }
}

/// The view of an optional text.
pub open spec fn text_view(text: Option<String>) -> Option<Seq<char>> {
    match text {
        None => None,
        Some(t) => Some(t@),
    }
}

/// Calls `url::Url::parse` on `text` and, where that succeeds,
/// `Url::host_str` on the URL. The result is a function of `text` alone,
/// named `parsed_host`; nothing more is claimed of it.
#[verifier::external_body]
pub(crate) fn parse_host(text: &str) -> (lookup: Option<Option<String>>)
    ensures
        lookup_view(lookup) == parsed_host(text@),
{
    match url::Url::parse(text) {
        Ok(parsed) => Some(parsed.host_str().map(|h| h.to_string())),
        Err(_) => None,
    }
}

/// Calls `url::Url::parse` on `base` and, where that succeeds, `Url::join`
/// with `href`, and hands out the joined URL's text (`Url::as_str`). The
/// result is a function of the two texts alone, named `resolved_href`;
/// nothing more is claimed of it.
#[verifier::external_body]
pub(crate) fn resolve_href(base: &str, href: &str) -> (target: Option<String>)
    ensures
        text_view(target) == resolved_href(base@, href@),
{
    match url::Url::parse(base) {
        Ok(parsed) => match parsed.join(href) {
            Ok(joined) => Some(joined.as_str().to_string()),
            Err(_) => None,
        },
        Err(_) => None,
    }
}

/// The host of a parsed URL as a text: empty where the URL has none.
pub open spec fn host_text(host: Option<Seq<char>>) -> Seq<char> {
    match host {
        Some(h) => h,
        None => Seq::empty(),
    }
}

/// The link texts that are turned away whatever they parse to: the empty
/// text, fragment references and the `javascript:`, `mailto:` and `tel:`
/// schemes.
pub open spec fn is_rejected_form(url: Seq<char>) -> bool {
    ||| url.len() == 0
    ||| "#"@.is_prefix_of(url)
    ||| "javascript:"@.is_prefix_of(url)
    ||| "mailto:"@.is_prefix_of(url)
    ||| "tel:"@.is_prefix_of(url)
}

/// Whether a link is let through, given what its text parses to: its form
/// is not a rejected one, it parses as an absolute URL and, under the
/// domain restriction, its host is exactly `domain`.
pub open spec fn link_allowed(
    url: Seq<char>,
    lookup: Option<Option<Seq<char>>>,
    same_domain_only: bool,
    domain: Seq<char>,
) -> bool {
    &&& !is_rejected_form(url)
    &&& lookup is Some
    &&& same_domain_only ==> host_text(lookup->0) == domain
}

/// Where the fragment of a URL text begins: the place of its first `#`, or
/// the text's length where it holds none.
pub open spec fn fragment_start(url: Seq<char>) -> nat
    decreases url.len(),
{
    if url.len() == 0 || url[0] == '#' {
        0
    } else {
        1 + fragment_start(url.drop_first())
    }
}

/// The URL text without its fragment: the text up to its first `#`.
pub open spec fn without_fragment(url: Seq<char>) -> Seq<char> {
    url.take(fragment_start(url) as int)
}

/// The fragment begins at `at` where no `#` stands before `at` and either
/// one stands there or the text ends there.
pub proof fn lemma_fragment_start(url: Seq<char>, at: int)
    requires
        0 <= at <= url.len(),
        forall|k: int| 0 <= k < at ==> url[k] != '#',
        at == url.len() || url[at] == '#',
    ensures
        fragment_start(url) == at,
    decreases at,
{
    if at > 0 {
        let rest = url.drop_first();
        assert forall|k: int| 0 <= k < at - 1 implies rest[k] != '#' by {
            assert(rest[k] == url[k + 1]);
        }
        lemma_fragment_start(rest, at - 1);
    }
}

/// A URL text without its fragment holds no `#`, and is the whole text
/// where that holds none.
pub proof fn lemma_without_fragment(url: Seq<char>)
    ensures
        fragment_start(url) <= url.len(),
        !without_fragment(url).contains('#'),
        !url.contains('#') ==> without_fragment(url) == url,
    decreases url.len(),
{
    if url.len() > 0 && url[0] != '#' {
        let rest = url.drop_first();
        lemma_without_fragment(rest);
        let cut = without_fragment(url);
        assert forall|k: int| 0 <= k < cut.len() implies cut[k] != '#' by {
            if k > 0 {
                assert(cut[k] == without_fragment(rest)[k - 1]);
                assert(without_fragment(rest).contains(without_fragment(rest)[k - 1]));
            }
        }
        if !url.contains('#') {
            assert forall|k: int| 0 <= k < rest.len() implies rest[k] != '#' by {
                assert(url.contains(url[k + 1]));
            }
            assert(without_fragment(rest) == rest);
            assert(cut =~= url);
        }
    } else if url.len() > 0 {
        assert(url.contains(url[0]));
    } else {
        assert(without_fragment(url) =~= url);
    }
}

/// Removes the fragment from a URL text.
pub fn cut_fragment(url: &str) -> (cut: String)
    ensures
        cut@ == without_fragment(url@),
{
    let chars = to_chars(url);
    let mut at: usize = 0;
    while at < chars.len() && chars[at] != '#'
        invariant
            at <= chars.len(),
            forall|k: int| 0 <= k < at ==> chars@[k] != '#',
        decreases chars.len() - at,
    {
        at += 1;
    }
    proof {
        lemma_fragment_start(chars@, at as int);
    }
    let kept = slice_of(&chars, 0, at);
    string_of(&kept)
}

/// Tells whether the link text has one of the rejected forms.
pub fn has_rejected_form(url: &str) -> (r: bool)
    ensures
        r == is_rejected_form(url@),
{
    let chars = to_chars(url);
    chars.len() == 0 || starts_with(&chars, "#") || starts_with(&chars, "javascript:")
        || starts_with(&chars, "mailto:") || starts_with(&chars, "tel:")
}

/// Tells whether a host lookup satisfies the domain policy: the text parsed
/// and, under the restriction, its host is exactly `domain`.
pub fn host_admitted(lookup: &Option<Option<String>>, same_domain_only: bool, domain: &str) -> (r:
    bool)
    ensures
        r == (lookup_view(*lookup) is Some && (same_domain_only ==> host_text(
            lookup_view(*lookup)->0,
        ) == domain@)),
{
    match lookup {
        None => false,
        Some(host) => {
            if same_domain_only {
                match host {
                    Some(h) => same_text(h.as_str(), domain),
                    None => {
                        proof {
                            reveal_strlit("");
                            assert(""@ =~= Seq::<char>::empty());
                        }
                        same_text("", domain)
                    },
                }
            } else {
                true
            }
        },
    }
}

/// Decides whether a link is let through, given what its text parsed to.
pub fn link_passes(
    url: &str,
    lookup: &Option<Option<String>>,
    same_domain_only: bool,
    domain: &str,
) -> (r: bool)
    ensures
        r == link_allowed(url@, lookup_view(*lookup), same_domain_only, domain@),
{
    !has_rejected_form(url) && host_admitted(lookup, same_domain_only, domain)
}

} // verus!

//! The result store's merges: page records kept sorted by URL with one
//! record for each URL, and the flat list of URLs.

use crate::page::{records_view, PageView, UrlData};
use crate::text::{
    chars_lt, lemma_lex_asymmetric, lemma_lex_irreflexive, lemma_lex_total, lex_lt, to_chars,
};
use crate::url_list::{lemma_insert_sorted, record_urls, sorted_texts};
use vstd::prelude::*;

verus! {

/// The first record of `records` whose URL is `url`, if there is one.
pub open spec fn lookup(records: Seq<PageView>, url: Seq<char>) -> Option<PageView>
    decreases records.len(),
{
    if records.len() == 0 {
        None
    } else if records[0].url == url {
        Some(records[0])
    } else {
        lookup(records.drop_first(), url)
    }
}

/// The records stand in strictly ascending order of their URLs, so no URL
/// occurs twice.
pub open spec fn sorted_by_url(records: Seq<PageView>) -> bool {
    forall|i: int, j: int|
        0 <= i < j < records.len() ==> lex_lt(
            (#[trigger] records[i]).url,
            (#[trigger] records[j]).url,
        )
}

/// `merged` is the merge of the records `all`: it is sorted by URL and
/// holds, for each URL of `all`, the first record of `all` with that URL,
/// and nothing else.
pub open spec fn is_merge_of(merged: Seq<PageView>, all: Seq<PageView>) -> bool {
    &&& sorted_by_url(merged)
    &&& forall|url: Seq<char>| #[trigger] lookup(merged, url) == lookup(all, url)
}

/// What `lookup` finds has the URL asked for and is one of the records.
pub proof fn lemma_lookup_found(records: Seq<PageView>, url: Seq<char>)
    requires
        lookup(records, url) is Some,
    ensures
        lookup(records, url)->0.url == url,
        records.contains(lookup(records, url)->0),
    decreases records.len(),
{
    if records[0].url == url {
        assert(records[0] == lookup(records, url)->0);
    } else {
        lemma_lookup_found(records.drop_first(), url);
        let r = lookup(records, url)->0;
        let k = choose|k: int| 0 <= k < records.drop_first().len() && records.drop_first()[k] == r;
        assert(records[k + 1] == r);
    }
}

/// A URL that some record has is found.
pub proof fn lemma_lookup_present(records: Seq<PageView>, i: int)
    requires
        0 <= i < records.len(),
    ensures
        lookup(records, records[i].url) is Some,
    decreases records.len(),
{
    if records[0].url != records[i].url {
        assert(records.drop_first()[i - 1] == records[i]);
        lemma_lookup_present(records.drop_first(), i - 1);
    }
}

/// What is found in a single record.
pub proof fn lemma_lookup_single(record: PageView, url: Seq<char>)
    ensures
        lookup(seq![record], url) == if record.url == url {
            Some(record)
        } else {
            None
        },
{
    assert(seq![record].drop_first() =~= Seq::empty());
    assert(lookup(Seq::empty(), url) is None);
}

/// In a sequence followed by another, the first one's records come first.
pub proof fn lemma_lookup_concat(a: Seq<PageView>, b: Seq<PageView>, url: Seq<char>)
    ensures
        lookup(a + b, url) == if lookup(a, url) is Some {
            lookup(a, url)
        } else {
            lookup(b, url)
        },
    decreases a.len(),
{
    if a.len() == 0 {
        assert(a + b =~= b);
    } else {
        assert((a + b).drop_first() =~= a.drop_first() + b);
        if a[0].url != url {
            lemma_lookup_concat(a.drop_first(), b, url);
        }
    }
}

/// In records sorted by URL, each record is the one found for its URL.
pub proof fn lemma_lookup_sorted(records: Seq<PageView>, i: int)
    requires
        sorted_by_url(records),
        0 <= i < records.len(),
    ensures
        lookup(records, records[i].url) == Some(records[i]),
    decreases i,
{
    if i > 0 {
        lemma_lex_irreflexive(records[i].url);
        assert(lex_lt(records[0].url, records[i].url));
        let rest = records.drop_first();
        assert forall|a: int, b: int| 0 <= a < b < rest.len() implies lex_lt(
            (#[trigger] rest[a]).url,
            (#[trigger] rest[b]).url,
        ) by {
            assert(rest[a] == records[a + 1] && rest[b] == records[b + 1]);
        }
        assert(rest[i - 1] == records[i]);
        lemma_lookup_sorted(rest, i - 1);
    }
}

/// Two sequences sorted by URL in which every URL finds the same record
/// are the same sequence: a merge is fixed by what it is a merge of.
pub proof fn lemma_merge_unique(m1: Seq<PageView>, m2: Seq<PageView>)
    requires
        sorted_by_url(m1),
        sorted_by_url(m2),
        forall|url: Seq<char>| #[trigger] lookup(m1, url) == lookup(m2, url),
    ensures
        m1 == m2,
    decreases m1.len(),
{
    if m1.len() == 0 {
        if m2.len() > 0 {
            lemma_lookup_present(m2, 0);
            assert(lookup(m1, m2[0].url) == lookup(m2, m2[0].url));
        }
        assert(m1 =~= m2);
    } else if m2.len() == 0 {
        lemma_lookup_present(m1, 0);
        assert(lookup(m1, m1[0].url) == lookup(m2, m1[0].url));
    } else {
        let u1 = m1[0].url;
        let u2 = m2[0].url;
        lemma_lookup_sorted(m1, 0);
        lemma_lookup_sorted(m2, 0);
        assert(lookup(m1, u1) == lookup(m2, u1));
        assert(lookup(m1, u2) == lookup(m2, u2));
        if u1 != u2 {
            lemma_lookup_found(m2, u1);
            lemma_lookup_found(m1, u2);
            let j = choose|j: int| 0 <= j < m2.len() && m2[j] == m1[0];
            let i = choose|i: int| 0 <= i < m1.len() && m1[i] == m2[0];
            assert(lex_lt(m2[0].url, m2[j].url));
            assert(lex_lt(m1[0].url, m1[i].url));
            lemma_lex_asymmetric(u1, u2);
        }
        assert(m1[0] == m2[0]);
        let t1 = m1.drop_first();
        let t2 = m2.drop_first();
        assert forall|a: int, b: int| 0 <= a < b < t1.len() implies lex_lt(
            (#[trigger] t1[a]).url,
            (#[trigger] t1[b]).url,
        ) by {
            assert(t1[a] == m1[a + 1] && t1[b] == m1[b + 1]);
        }
        assert forall|a: int, b: int| 0 <= a < b < t2.len() implies lex_lt(
            (#[trigger] t2[a]).url,
            (#[trigger] t2[b]).url,
        ) by {
            assert(t2[a] == m2[a + 1] && t2[b] == m2[b + 1]);
        }
        assert forall|url: Seq<char>| #[trigger] lookup(t1, url) == lookup(t2, url) by {
            assert(lookup(m1, url) == lookup(m2, url));
            if url == u1 {
                lemma_tail_lacks_head(m1);
                lemma_tail_lacks_head(m2);
            }
        }
        lemma_merge_unique(t1, t2);
        assert(m1 =~= seq![m1[0]] + t1);
        assert(m2 =~= seq![m2[0]] + t2);
    }
}

/// In records sorted by URL, the first record's URL is not found among the
/// others.
pub proof fn lemma_tail_lacks_head(records: Seq<PageView>)
    requires
        sorted_by_url(records),
        records.len() > 0,
    ensures
        lookup(records.drop_first(), records[0].url) is None,
{
    let rest = records.drop_first();
    if lookup(rest, records[0].url) is Some {
        lemma_lookup_found(rest, records[0].url);
        let r = lookup(rest, records[0].url)->0;
        let k = choose|k: int| 0 <= k < rest.len() && rest[k] == r;
        assert(rest[k] == records[k + 1]);
        assert(lex_lt(records[0].url, records[k + 1].url));
        lemma_lex_irreflexive(records[0].url);
    }
}

/// Merging the same records into what their merge gave changes nothing.
pub proof fn lemma_merge_idempotent(
    found: Seq<PageView>,
    first: Seq<PageView>,
    second: Seq<PageView>,
)
    requires
        is_merge_of(first, Seq::empty() + found),
        is_merge_of(second, first + found),
    ensures
        second == first,
{
    assert(Seq::<PageView>::empty() + found =~= found);
    assert forall|url: Seq<char>| #[trigger] lookup(second, url) == lookup(first, url) by {
        lemma_lookup_concat(first, found, url);
        assert(lookup(second, url) == lookup(first + found, url));
        assert(lookup(first, url) == lookup(found, url));
    }
    lemma_merge_unique(second, first);
}

/// Merging `a` and then `b` gives the merge of `a` followed by `b`: the
/// store accumulates. Where `a` and `b` share no URL and neither holds a
/// URL twice, that is the sorted union of their records.
pub proof fn lemma_merge_accumulates(
    a: Seq<PageView>,
    b: Seq<PageView>,
    first: Seq<PageView>,
    second: Seq<PageView>,
)
    requires
        is_merge_of(first, Seq::empty() + a),
        is_merge_of(second, first + b),
    ensures
        is_merge_of(second, a + b),
{
    assert(Seq::<PageView>::empty() + a =~= a);
    assert forall|url: Seq<char>| #[trigger] lookup(second, url) == lookup(a + b, url) by {
        lemma_lookup_concat(first, b, url);
        lemma_lookup_concat(a, b, url);
        assert(lookup(second, url) == lookup(first + b, url));
        assert(lookup(first, url) == lookup(a, url));
    }
}

/// A merge holds every record of `all` whose URL no earlier record of
/// `all` has, and each of its records is one of `all`.
pub proof fn lemma_merge_members(merged: Seq<PageView>, all: Seq<PageView>)
    requires
        is_merge_of(merged, all),
    ensures
        forall|i: int| 0 <= i < merged.len() ==> all.contains(#[trigger] merged[i]),
        forall|k: int|
            0 <= k < all.len() && lookup(all, all[k].url) == Some(all[k]) ==> merged.contains(
                #[trigger] all[k],
            ),
{
    assert forall|i: int| 0 <= i < merged.len() implies all.contains(#[trigger] merged[i]) by {
        lemma_lookup_sorted(merged, i);
        assert(lookup(merged, merged[i].url) == lookup(all, merged[i].url));
        lemma_lookup_found(all, merged[i].url);
    }
    assert forall|k: int|
        0 <= k < all.len() && lookup(all, all[k].url) == Some(all[k]) implies merged.contains(
        #[trigger] all[k],
    ) by {
        assert(lookup(merged, all[k].url) == lookup(all, all[k].url));
        lemma_lookup_found(merged, all[k].url);
    }
}

/// Records are sorted by URL exactly where their URLs are a sorted list.
pub proof fn lemma_sorted_by_url(records: Seq<PageView>)
    ensures
        sorted_by_url(records) == sorted_texts(record_urls(records)),
{
    let urls = record_urls(records);
    if sorted_by_url(records) {
        assert forall|i: int, j: int| 0 <= i < j < urls.len() implies lex_lt(urls[i], urls[j]) by {
            assert(lex_lt(records[i].url, records[j].url));
        }
    }
    if sorted_texts(urls) {
        assert forall|i: int, j: int| 0 <= i < j < records.len() implies lex_lt(
            (#[trigger] records[i]).url,
            (#[trigger] records[j]).url,
        ) by {
            assert(lex_lt(urls[i], urls[j]));
        }
    }
}

/// Puts `record` into `sorted`, which is sorted by URL, at the place its
/// URL asks for. Where `sorted` holds a record with that URL already,
/// that one stays and `record` is dropped.
pub fn insert_record(sorted: &mut Vec<UrlData>, record: UrlData)
    requires
        sorted_by_url(records_view(old(sorted)@)),
    ensures
        is_merge_of(records_view(final(sorted)@), records_view(old(sorted)@).push(record@)),
{
    let ghost before = records_view(sorted@);
    let key = to_chars(record.url.as_str());
    let mut p: usize = sorted.len();
    while p > 0 && chars_lt(&key, &to_chars(sorted[p - 1].url.as_str()))
        invariant
            p <= sorted.len(),
            key@ == record.url@,
            before == records_view(sorted@),
            forall|k: int| p <= k < before.len() ==> lex_lt(key@, (#[trigger] before[k]).url),
        decreases p,
    {
        p -= 1;
    }
    let duplicate = p > 0 && !chars_lt(&to_chars(sorted[p - 1].url.as_str()), &key);
    proof {
        let target = before.push(record@);
        assert(target =~= before + seq![record@]);
        if duplicate {
            lemma_lex_total(before[p - 1].url, key@);
            assert forall|url: Seq<char>| #[trigger] lookup(before, url) == lookup(target, url) by {
                lemma_lookup_concat(before, seq![record@], url);
                lemma_lookup_single(record@, url);
                if url == key@ {
                    lemma_lookup_present(before, p - 1);
                }
            }
        } else {
            let after = before.insert(p as int, record@);
            let low = before.take(p as int);
            let high = before.skip(p as int);
            assert(before =~= low + high);
            assert(after =~= low + (seq![record@] + high));
            assert(sorted_by_url(after)) by {
                lemma_sorted_by_url(before);
                lemma_sorted_by_url(after);
                assert(record_urls(after) =~= record_urls(before).insert(p as int, key@));
                lemma_insert_sorted(record_urls(before), p as int, key@);
            }
            assert forall|url: Seq<char>| #[trigger] lookup(after, url) == lookup(target, url) by {
                lemma_lookup_concat(low, seq![record@] + high, url);
                lemma_lookup_concat(seq![record@], high, url);
                lemma_lookup_concat(low, high, url);
                lemma_lookup_concat(before, seq![record@], url);
                lemma_lookup_single(record@, url);
                if url == key@ && lookup(high, url) is Some {
                    lemma_lookup_found(high, url);
                    let r = lookup(high, url)->0;
                    let k = choose|k: int| 0 <= k < high.len() && high[k] == r;
                    assert(high[k] == before[k + p]);
                    lemma_lex_irreflexive(key@);
                }
            }
        }
    }
    if !duplicate {
        sorted.insert(p, record);
        assert(records_view(sorted@) =~= before.insert(p as int, record@));
    }
}

/// Merges the records of `source` into `merged`, which is the merge of the
/// records `seen`: after it, `merged` is the merge of `seen` followed by
/// the records of `source`.
fn merge_into(merged: &mut Vec<UrlData>, source: &Vec<UrlData>, Ghost(seen): Ghost<Seq<PageView>>)
    requires
        is_merge_of(records_view(old(merged)@), seen),
    ensures
        is_merge_of(records_view(final(merged)@), seen + records_view(source@)),
{
    let ghost added = records_view(source@);
    let mut i: usize = 0;
    assert(seen + added.take(0) =~= seen);
    while i < source.len()
        invariant
            i <= source.len(),
            added == records_view(source@),
            is_merge_of(records_view(merged@), seen + added.take(i as int)),
        decreases source.len() - i,
    {
        let ghost prior = records_view(merged@);
        let ghost so_far = seen + added.take(i as int);
        let record = source[i].clone();
        insert_record(merged, record);
        proof {
            assert(seen + added.take(i as int + 1) =~= so_far + seq![record@]);
            assert(prior.push(record@) =~= prior + seq![record@]);
            assert forall|url: Seq<char>| #[trigger]
                lookup(records_view(merged@), url) == lookup(so_far + seq![record@], url) by {
                lemma_lookup_concat(so_far, seq![record@], url);
                lemma_lookup_concat(prior, seq![record@], url);
                assert(lookup(prior, url) == lookup(so_far, url));
                assert(lookup(records_view(merged@), url) == lookup(prior.push(record@), url));
            }
        }
        i += 1;
    }
    assert(added.take(i as int) =~= added);
}

/// Merges the records `found` into the records `existing`: the result is
/// sorted by URL and holds one record for each URL, the first that
/// `existing` followed by `found` has for it.
pub fn merge_records(existing: &Vec<UrlData>, found: &Vec<UrlData>) -> (merged: Vec<UrlData>)
    ensures
        is_merge_of(records_view(merged@), records_view(existing@) + records_view(found@)),
{
    let mut merged: Vec<UrlData> = Vec::new();
    assert(records_view(merged@) =~= Seq::empty());
    merge_into(&mut merged, existing, Ghost(Seq::empty()));
    assert(Seq::<PageView>::empty() + records_view(existing@) =~= records_view(existing@));
    merge_into(&mut merged, found, Ghost(records_view(existing@)));
    merged
}

} // verus!

//! The flat list of URLs: a text of double-quoted URLs joined by commas,
//! kept sorted and free of repeats.

use crate::page::{records_view, texts_view, PageView, UrlData};
use crate::text::{
    chars_lt, lemma_lex_asymmetric, lemma_lex_irreflexive, lemma_lex_total, lemma_lex_transitive,
    is_space, lex_lt, string_of, strip, strip_end, strip_start, stripped, to_chars, trimmed,
    Strip,
};
use vstd::hash_set::StringHashSet;
use vstd::prelude::*;

verus! {

/// The pieces between the commas of `s`, in order. A text without a comma
/// is one piece, the empty text too.
pub open spec fn split_on_commas(s: Seq<char>) -> Seq<Seq<char>>
    decreases s.len(),
{
    if s.len() == 0 {
        seq![Seq::empty()]
    } else {
        let before = split_on_commas(s.drop_last());
        if s.last() == ',' {
            before.push(Seq::empty())
        } else {
            before.drop_last().push(before.last().push(s.last()))
        }
    }
}

/// The URL that a piece of the list stands for: the piece without the
/// white space and then without the double quotes at its two ends.
pub open spec fn token_text(piece: Seq<char>) -> Seq<char> {
    stripped(trimmed(piece), Strip::Quote)
}

/// The URLs that the pieces stand for. Empty pieces stand for nothing.
pub open spec fn tokens_of(pieces: Seq<Seq<char>>) -> Seq<Seq<char>>
    decreases pieces.len(),
{
    if pieces.len() == 0 {
        Seq::empty()
    } else {
        let rest = tokens_of(pieces.drop_last());
        if pieces.last().len() == 0 {
            rest
        } else {
            rest.push(token_text(pieces.last()))
        }
    }
}

/// The URLs that a list text holds, in the order of the text.
pub open spec fn list_tokens(content: Seq<char>) -> Seq<Seq<char>> {
    tokens_of(split_on_commas(content))
}

/// A text between double quotes.
pub open spec fn quoted(text: Seq<char>) -> Seq<char> {
    seq!['"'] + text + seq!['"']
}

/// The list text of `urls`: each between double quotes, joined by commas,
/// with no comma at the end.
pub open spec fn render_list(urls: Seq<Seq<char>>) -> Seq<char>
    decreases urls.len(),
{
    if urls.len() == 0 {
        Seq::empty()
    } else if urls.len() == 1 {
        quoted(urls[0])
    } else {
        render_list(urls.drop_last()) + seq![','] + quoted(urls.last())
    }
}

/// The texts stand in strictly ascending order, so none occurs twice.
pub open spec fn sorted_texts(texts: Seq<Seq<char>>) -> bool {
    forall|i: int, j: int| 0 <= i < j < texts.len() ==> lex_lt(texts[i], texts[j])
}

/// `merged` is sorted and holds exactly the texts of `a` and of `b`.
pub open spec fn is_union_list(
    merged: Seq<Seq<char>>,
    a: Seq<Seq<char>>,
    b: Seq<Seq<char>>,
) -> bool {
    &&& sorted_texts(merged)
    &&& forall|u: Seq<char>| #[trigger] merged.contains(u) <==> a.contains(u) || b.contains(u)
}

/// The sorted list without repeats of the texts of `a` and of `b`.
pub open spec fn sorted_union(a: Seq<Seq<char>>, b: Seq<Seq<char>>) -> Seq<Seq<char>> {
    choose|merged: Seq<Seq<char>>| is_union_list(merged, a, b)
}

/// The URLs of a sequence of records, in order.
pub open spec fn record_urls(records: Seq<PageView>) -> Seq<Seq<char>> {
    records.map_values(|r: PageView| r.url)
}

/// A URL that the list text gives back as it was written: it holds no
/// comma and neither begins nor ends with a double quote.
pub open spec fn is_plain(url: Seq<char>) -> bool {
    &&& !url.contains(',')
    &&& url.len() > 0 ==> url[0] != '"' && url.last() != '"'
}

/// Two sorted lists that hold the same texts are the same list.
pub proof fn lemma_sorted_texts_unique(m1: Seq<Seq<char>>, m2: Seq<Seq<char>>)
    requires
        sorted_texts(m1),
        sorted_texts(m2),
        forall|u: Seq<char>| #[trigger] m1.contains(u) <==> m2.contains(u),
    ensures
        m1 == m2,
    decreases m1.len(),
{
    if m1.len() == 0 {
        if m2.len() > 0 {
            assert(m2.contains(m2[0]));
            assert(m1.contains(m2[0]));
        }
        assert(m1 =~= m2);
    } else if m2.len() == 0 {
        assert(m1.contains(m1[0]));
        assert(m2.contains(m1[0]));
    } else {
        assert(m1.contains(m1[0]));
        assert(m2.contains(m2[0]));
        assert(m2.contains(m1[0]));
        assert(m1.contains(m2[0]));
        if m1[0] != m2[0] {
            let j = choose|j: int| 0 <= j < m2.len() && m2[j] == m1[0];
            let i = choose|i: int| 0 <= i < m1.len() && m1[i] == m2[0];
            assert(lex_lt(m2[0], m2[j]));
            assert(lex_lt(m1[0], m1[i]));
            lemma_lex_asymmetric(m1[0], m2[0]);
        }
        assert(m1[0] == m2[0]);
        let t1 = m1.drop_first();
        let t2 = m2.drop_first();
        lemma_lex_irreflexive(m1[0]);
        assert forall|u: Seq<char>| #[trigger] t1.contains(u) <==> t2.contains(u) by {
            if t1.contains(u) {
                let i = choose|i: int| 0 <= i < t1.len() && t1[i] == u;
                assert(m1[i + 1] == u);
                assert(lex_lt(m1[0], m1[i + 1]));
                assert(m1.contains(u));
                assert(m2.contains(u));
                let j = choose|j: int| 0 <= j < m2.len() && m2[j] == u;
                assert(j != 0);
                assert(t2[j - 1] == u);
            }
            if t2.contains(u) {
                let j = choose|j: int| 0 <= j < t2.len() && t2[j] == u;
                assert(m2[j + 1] == u);
                assert(lex_lt(m2[0], m2[j + 1]));
                assert(m2.contains(u));
                assert(m1.contains(u));
                let i = choose|i: int| 0 <= i < m1.len() && m1[i] == u;
                assert(i != 0);
                assert(t1[i - 1] == u);
            }
        }
        assert(sorted_texts(t1)) by {
            assert forall|a: int, b: int| 0 <= a < b < t1.len() implies lex_lt(t1[a], t1[b]) by {
                assert(t1[a] == m1[a + 1] && t1[b] == m1[b + 1]);
            }
        }
        assert(sorted_texts(t2)) by {
            assert forall|a: int, b: int| 0 <= a < b < t2.len() implies lex_lt(t2[a], t2[b]) by {
                assert(t2[a] == m2[a + 1] && t2[b] == m2[b + 1]);
            }
        }
        lemma_sorted_texts_unique(t1, t2);
        assert(m1 =~= seq![m1[0]] + t1);
        assert(m2 =~= seq![m2[0]] + t2);
    }
}

/// A list that is the sorted union of `a` and `b` is `sorted_union(a, b)`.
pub proof fn lemma_sorted_union_is(merged: Seq<Seq<char>>, a: Seq<Seq<char>>, b: Seq<Seq<char>>)
    requires
        is_union_list(merged, a, b),
    ensures
        merged == sorted_union(a, b),
        is_union_list(sorted_union(a, b), a, b),
{
    let other = sorted_union(a, b);
    assert forall|u: Seq<char>| #[trigger] merged.contains(u) <==> other.contains(u) by {
        assert(merged.contains(u) <==> a.contains(u) || b.contains(u));
        assert(other.contains(u) <==> a.contains(u) || b.contains(u));
    }
    lemma_sorted_texts_unique(merged, other);
}

/// Cutting a text that ends in a comma-free stretch: the stretch joins
/// the last piece of what stands before it.
pub proof fn lemma_split_append(head: Seq<char>, tail: Seq<char>)
    requires
        !tail.contains(','),
    ensures
        split_on_commas(head).len() > 0,
        split_on_commas(head + tail) == split_on_commas(head).drop_last().push(
            split_on_commas(head).last() + tail,
        ),
    decreases tail.len(),
{
    lemma_split_nonempty(head);
    let pieces = split_on_commas(head);
    if tail.len() == 0 {
        assert(head + tail =~= head);
        assert(pieces.last() + tail =~= pieces.last());
        assert(pieces.drop_last().push(pieces.last()) =~= pieces);
    } else {
        let shorter = tail.drop_last();
        assert forall|i: int| 0 <= i < shorter.len() implies shorter[i] != ',' by {
            assert(tail[i] == shorter[i]);
            assert(tail.contains(tail[i]));
        }
        assert(tail.contains(tail.last()));
        lemma_split_append(head, shorter);
        assert((head + tail).drop_last() =~= head + shorter);
        assert((head + tail).last() == tail.last());
        let before = split_on_commas(head + shorter);
        assert(before.drop_last() =~= pieces.drop_last());
        assert(before.last().push(tail.last()) =~= pieces.last() + tail);
    }
}

/// Cutting a text gives at least one piece.
pub proof fn lemma_split_nonempty(s: Seq<char>)
    ensures
        split_on_commas(s).len() > 0,
    decreases s.len(),
{
    if s.len() > 0 {
        lemma_split_nonempty(s.drop_last());
    }
}

/// A plain URL written between quotes is read back as it was.
pub proof fn lemma_token_of_quoted(url: Seq<char>)
    requires
        is_plain(url),
    ensures
        token_text(quoted(url)) == url,
        quoted(url).len() > 0,
        !quoted(url).contains(','),
{
    let q = quoted(url);
    assert(q[0] == '"' && q.last() == '"');
    assert(!is_space('"'));
    assert(strip_start(q, Strip::Space) == q);
    assert(trimmed(q) == q);
    let inner = q.drop_first();
    assert(inner =~= url + seq!['"']);
    if url.len() == 0 {
        assert(inner.drop_first() =~= Seq::<char>::empty());
        assert(strip_start(inner.drop_first(), Strip::Quote) =~= Seq::<char>::empty());
        assert(strip_start(inner, Strip::Quote) =~= Seq::<char>::empty());
        assert(strip_start(q, Strip::Quote) =~= Seq::<char>::empty());
        assert(token_text(q) =~= url);
    } else {
        assert(inner[0] == url[0]);
        assert(strip_start(inner, Strip::Quote) == inner);
        assert(strip_start(q, Strip::Quote) == inner);
        assert(inner.last() == '"');
        assert(inner.drop_last() =~= url);
        assert(strip_end(url, Strip::Quote) == url);
        assert(strip_end(inner, Strip::Quote) == url);
    }
    assert forall|i: int| 0 <= i < q.len() implies q[i] != ',' by {
        if 0 < i < q.len() - 1 {
            assert(q[i] == url[i - 1]);
            assert(url.contains(url[i - 1]));
        }
    }
}

/// What the pieces stand for, when one more piece follows.
pub proof fn lemma_tokens_of_push(pieces: Seq<Seq<char>>, piece: Seq<char>)
    ensures
        tokens_of(pieces.push(piece)) == if piece.len() == 0 {
            tokens_of(pieces)
        } else {
            tokens_of(pieces).push(token_text(piece))
        },
{
    assert(pieces.push(piece).drop_last() =~= pieces);
}

/// A list text of plain URLs holds exactly those URLs, in their order:
/// reading undoes writing.
pub proof fn lemma_list_round_trip(urls: Seq<Seq<char>>)
    requires
        forall|i: int| 0 <= i < urls.len() ==> is_plain(#[trigger] urls[i]),
    ensures
        list_tokens(render_list(urls)) == urls,
    decreases urls.len(),
{
    if urls.len() == 0 {
        assert(split_on_commas(Seq::empty()) =~= seq![Seq::<char>::empty()]);
        lemma_tokens_of_push(Seq::empty(), Seq::empty());
        assert(seq![Seq::<char>::empty()] =~= Seq::<Seq<char>>::empty().push(Seq::empty()));
        assert(list_tokens(render_list(urls)) =~= urls);
    } else {
        let prior = urls.drop_last();
        let last = urls.last();
        let q = quoted(last);
        assert(is_plain(urls[urls.len() - 1]));
        lemma_token_of_quoted(last);
        if prior.len() == 0 {
            assert(urls[0] == last);
            let nothing = Seq::<char>::empty();
            lemma_split_append(nothing, q);
            assert(nothing + q =~= q);
            assert(split_on_commas(nothing) =~= seq![nothing]);
            assert(split_on_commas(nothing).last() + q =~= q);
            assert(split_on_commas(nothing).drop_last() =~= Seq::<Seq<char>>::empty());
            lemma_tokens_of_push(Seq::empty(), q);
            assert(list_tokens(render_list(urls)) =~= urls);
        } else {
            assert forall|i: int| 0 <= i < prior.len() implies is_plain(#[trigger] prior[i]) by {
                assert(prior[i] == urls[i]);
            }
            lemma_list_round_trip(prior);
            let written = render_list(prior);
            let head = written.push(',');
            assert(render_list(urls) =~= head + q);
            assert(head.drop_last() =~= written);
            let pieces = split_on_commas(written);
            assert(split_on_commas(head) == pieces.push(Seq::empty()));
            lemma_split_append(head, q);
            assert(pieces.push(Seq::<char>::empty()).drop_last() =~= pieces);
            assert(Seq::<char>::empty() + q =~= q);
            assert(split_on_commas(head + q) == pieces.push(q));
            lemma_tokens_of_push(pieces, q);
            assert(list_tokens(render_list(urls)) =~= urls);
        }
    }
}

/// An empty list text holds no URL.
pub proof fn lemma_empty_list()
    ensures
        list_tokens(Seq::empty()) == Seq::<Seq<char>>::empty(),
{
    lemma_list_round_trip(Seq::empty());
}

/// Merging the same plain URLs into the list text that their merge gave
/// changes nothing.
pub proof fn lemma_list_merge_idempotent(
    urls: Seq<Seq<char>>,
    first: Seq<Seq<char>>,
    second: Seq<Seq<char>>,
)
    requires
        forall|i: int| 0 <= i < urls.len() ==> is_plain(#[trigger] urls[i]),
        is_union_list(first, list_tokens(Seq::empty()), urls),
        is_union_list(second, list_tokens(render_list(first)), urls),
    ensures
        second == first,
        render_list(second) == render_list(first),
{
    lemma_empty_list();
    lemma_merged_plain(Seq::empty(), urls, first);
    lemma_list_round_trip(first);
    assert forall|u: Seq<char>| #[trigger] second.contains(u) <==> first.contains(u) by {
        assert(second.contains(u) <==> first.contains(u) || urls.contains(u));
        assert(first.contains(u) <==> Seq::<Seq<char>>::empty().contains(u) || urls.contains(u));
    }
    lemma_sorted_texts_unique(second, first);
}

/// Merging the plain URLs `a` into an empty list text and then the URLs
/// `b` into the text that gave: the list holds the sorted union of `a` and
/// `b`.
pub proof fn lemma_list_merge_accumulates(
    a: Seq<Seq<char>>,
    b: Seq<Seq<char>>,
    first: Seq<Seq<char>>,
    second: Seq<Seq<char>>,
)
    requires
        forall|i: int| 0 <= i < a.len() ==> is_plain(#[trigger] a[i]),
        is_union_list(first, list_tokens(Seq::empty()), a),
        is_union_list(second, list_tokens(render_list(first)), b),
    ensures
        is_union_list(second, a, b),
{
    lemma_empty_list();
    lemma_merged_plain(Seq::empty(), a, first);
    lemma_list_round_trip(first);
    assert forall|u: Seq<char>| #[trigger] second.contains(u) <==> a.contains(u) || b.contains(
        u,
    ) by {
        assert(second.contains(u) <==> first.contains(u) || b.contains(u));
        assert(first.contains(u) <==> Seq::<Seq<char>>::empty().contains(u) || a.contains(u));
    }
}

/// A merge of plain URLs holds plain URLs only.
pub proof fn lemma_merged_plain(a: Seq<Seq<char>>, b: Seq<Seq<char>>, merged: Seq<Seq<char>>)
    requires
        forall|i: int| 0 <= i < a.len() ==> is_plain(#[trigger] a[i]),
        forall|i: int| 0 <= i < b.len() ==> is_plain(#[trigger] b[i]),
        is_union_list(merged, a, b),
    ensures
        forall|i: int| 0 <= i < merged.len() ==> is_plain(#[trigger] merged[i]),
{
    assert forall|i: int| 0 <= i < merged.len() implies is_plain(#[trigger] merged[i]) by {
        let u = merged[i];
        assert(merged.contains(u));
        assert(a.contains(u) || b.contains(u));
        if a.contains(u) {
            let k = choose|k: int| 0 <= k < a.len() && a[k] == u;
            assert(is_plain(a[k]));
        } else {
            let k = choose|k: int| 0 <= k < b.len() && b[k] == u;
            assert(is_plain(b[k]));
        }
    }
}

/// A text put into a sorted list at its place leaves the list sorted.
pub proof fn lemma_insert_sorted(texts: Seq<Seq<char>>, at: int, text: Seq<char>)
    requires
        sorted_texts(texts),
        0 <= at <= texts.len(),
        at > 0 ==> lex_lt(texts[at - 1], text),
        forall|k: int| at <= k < texts.len() ==> lex_lt(text, #[trigger] texts[k]),
    ensures
        sorted_texts(texts.insert(at, text)),
{
    let after = texts.insert(at, text);
    assert forall|i: int, j: int| 0 <= i < j < after.len() implies lex_lt(after[i], after[j]) by {
        if j == at {
            if i < at - 1 {
                assert(lex_lt(texts[i], texts[at - 1]));
                lemma_lex_transitive(texts[i], texts[at - 1], text);
            }
        } else if i == at {
            assert(after[j] == texts[j - 1]);
        } else {
            let bi = if i < at { i } else { i - 1 };
            let bj = if j < at { j } else { j - 1 };
            assert(after[i] == texts[bi] && after[j] == texts[bj]);
        }
    }
}

/// What a list holds after a text was put into it.
pub proof fn lemma_insert_contains(texts: Seq<Seq<char>>, at: int, text: Seq<char>, u: Seq<char>)
    requires
        0 <= at <= texts.len(),
    ensures
        texts.insert(at, text).contains(u) <==> texts.contains(u) || u == text,
{
    let after = texts.insert(at, text);
    if after.contains(u) {
        let i = choose|i: int| 0 <= i < after.len() && after[i] == u;
        if i < at {
            assert(texts[i] == u);
        } else if i > at {
            assert(texts[i - 1] == u);
        }
    }
    if texts.contains(u) {
        let i = choose|i: int| 0 <= i < texts.len() && texts[i] == u;
        if i < at {
            assert(after[i] == u);
        } else {
            assert(after[i + 1] == u);
        }
    }
    assert(after[at] == text);
}

/// What the first `n + 1` texts of a list hold, by what its first `n` hold.
pub proof fn lemma_take_contains(texts: Seq<Seq<char>>, n: int, u: Seq<char>)
    requires
        0 <= n < texts.len(),
    ensures
        texts.take(n + 1).contains(u) <==> texts.take(n).contains(u) || u == texts[n],
{
    let short = texts.take(n);
    let long = texts.take(n + 1);
    if short.contains(u) {
        let k = choose|k: int| 0 <= k < short.len() && short[k] == u;
        assert(long[k] == u);
    }
    if long.contains(u) {
        let k = choose|k: int| 0 <= k < long.len() && long[k] == u;
        if k < n {
            assert(short[k] == u);
        }
    }
    assert(long[n] == texts[n]);
}

/// Puts `text` into the sorted list at its place, unless the list holds it
/// already.
pub fn insert_text(sorted: &mut Vec<String>, text: String)
    requires
        sorted_texts(texts_view(old(sorted)@)),
    ensures
        sorted_texts(texts_view(final(sorted)@)),
        forall|u: Seq<char>| #[trigger]
            texts_view(final(sorted)@).contains(u) <==> texts_view(old(sorted)@).contains(u) || u
                == text@,
{
    let ghost before = texts_view(sorted@);
    let key = to_chars(text.as_str());
    let mut p: usize = sorted.len();
    while p > 0 && chars_lt(&key, &to_chars(sorted[p - 1].as_str()))
        invariant
            p <= sorted.len(),
            key@ == text@,
            before == texts_view(sorted@),
            forall|k: int| p <= k < before.len() ==> lex_lt(key@, #[trigger] before[k]),
        decreases p,
    {
        p -= 1;
    }
    let duplicate = p > 0 && !chars_lt(&to_chars(sorted[p - 1].as_str()), &key);
    if duplicate {
        proof {
            lemma_lex_total(before[p - 1], key@);
            assert(before.contains(before[p - 1]));
        }
    } else {
        proof {
            lemma_insert_sorted(before, p as int, key@);
            assert forall|u: Seq<char>| #[trigger]
                before.insert(p as int, key@).contains(u) <==> before.contains(u) || u == key@ by {
                lemma_insert_contains(before, p as int, key@, u);
            }
        }
        sorted.insert(p, text);
        assert(texts_view(sorted@) =~= before.insert(p as int, key@));
    }
}

/// Notes `text` as seen: it joins the set, and the list where the set did
/// not hold it yet.
fn note_text(seen: &mut StringHashSet, distinct: &mut Vec<String>, text: String)
    requires
        forall|u: Seq<char>| #[trigger]
            old(seen)@.contains(u) <==> texts_view(old(distinct)@).contains(u),
    ensures
        forall|u: Seq<char>| #[trigger]
            final(seen)@.contains(u) <==> texts_view(final(distinct)@).contains(u),
        final(seen)@ == old(seen)@.insert(text@),
{
    let ghost before = texts_view(distinct@);
    if seen.insert(text.clone()) {
        distinct.push(text);
        proof {
            assert(texts_view(distinct@) =~= before.insert(before.len() as int, text@));
            assert forall|u: Seq<char>| #[trigger]
                seen@.contains(u) <==> texts_view(distinct@).contains(u) by {
                lemma_insert_contains(before, before.len() as int, text@, u);
            }
        }
    }
}

/// Merges the URLs of the records `found` into the URLs `existing`: the
/// result is sorted, holds no URL twice, and holds exactly the URLs of
/// both.
pub fn merge_urls(existing: &Vec<String>, found: &Vec<UrlData>) -> (merged: Vec<String>)
    ensures
        is_union_list(
            texts_view(merged@),
            texts_view(existing@),
            record_urls(records_view(found@)),
        ),
        texts_view(merged@) == sorted_union(
            texts_view(existing@),
            record_urls(records_view(found@)),
        ),
{
    let ghost a = texts_view(existing@);
    let ghost b = record_urls(records_view(found@));
    let mut seen = StringHashSet::new();
    let mut distinct: Vec<String> = Vec::new();
    let mut i: usize = 0;
    while i < existing.len()
        invariant
            i <= existing.len(),
            a == texts_view(existing@),
            forall|u: Seq<char>| #[trigger]
                seen@.contains(u) <==> texts_view(distinct@).contains(u),
            forall|u: Seq<char>| #[trigger] seen@.contains(u) <==> a.take(i as int).contains(u),
        decreases existing.len() - i,
    {
        let ghost prior = seen@;
        note_text(&mut seen, &mut distinct, existing[i].clone());
        proof {
            assert forall|u: Seq<char>| #[trigger]
                seen@.contains(u) <==> a.take(i as int + 1).contains(u) by {
                lemma_take_contains(a, i as int, u);
                assert(prior.contains(u) <==> a.take(i as int).contains(u));
            }
        }
        i += 1;
    }
    assert(a.take(i as int) =~= a);
    let mut j: usize = 0;
    while j < found.len()
        invariant
            j <= found.len(),
            b == record_urls(records_view(found@)),
            forall|u: Seq<char>| #[trigger]
                seen@.contains(u) <==> texts_view(distinct@).contains(u),
            forall|u: Seq<char>| #[trigger]
                seen@.contains(u) <==> a.contains(u) || b.take(j as int).contains(u),
        decreases found.len() - j,
    {
        let ghost prior = seen@;
        note_text(&mut seen, &mut distinct, found[j].url.clone());
        proof {
            assert forall|u: Seq<char>| #[trigger]
                seen@.contains(u) <==> a.contains(u) || b.take(j as int + 1).contains(u) by {
                lemma_take_contains(b, j as int, u);
                assert(prior.contains(u) <==> a.contains(u) || b.take(j as int).contains(u));
            }
        }
        j += 1;
    }
    assert(b.take(j as int) =~= b);
    let ghost all = texts_view(distinct@);
    let mut merged: Vec<String> = Vec::new();
    let mut k: usize = 0;
    while k < distinct.len()
        invariant
            k <= distinct.len(),
            all == texts_view(distinct@),
            sorted_texts(texts_view(merged@)),
            forall|u: Seq<char>| #[trigger]
                texts_view(merged@).contains(u) <==> all.take(k as int).contains(u),
        decreases distinct.len() - k,
    {
        let ghost prior = texts_view(merged@);
        insert_text(&mut merged, distinct[k].clone());
        proof {
            assert forall|u: Seq<char>| #[trigger]
                texts_view(merged@).contains(u) <==> all.take(k as int + 1).contains(u) by {
                lemma_take_contains(all, k as int, u);
                assert(prior.contains(u) <==> all.take(k as int).contains(u));
            }
        }
        k += 1;
    }
    proof {
        assert(all.take(k as int) =~= all);
        assert forall|u: Seq<char>| #[trigger]
            texts_view(merged@).contains(u) <==> a.contains(u) || b.contains(u) by {
            assert(seen@.contains(u) <==> all.contains(u));
            assert(seen@.contains(u) <==> a.contains(u) || b.contains(u));
        }
        lemma_sorted_union_is(texts_view(merged@), a, b);
    }
    merged
}

/// Reads the URLs out of a list text: the text is cut at its commas, empty
/// pieces are passed over, and each other piece is freed of the white
/// space and then of the double quotes at its ends.
pub fn parse_url_list(content: &str) -> (urls: Vec<String>)
    ensures
        texts_view(urls@) == list_tokens(content@),
{
    let chars = to_chars(content);
    let mut urls: Vec<String> = Vec::new();
    let mut current: Vec<char> = Vec::new();
    let ghost mut done: Seq<Seq<char>> = Seq::empty();
    let mut i: usize = 0;
    assert(chars@.take(0) =~= Seq::empty());
    assert(split_on_commas(Seq::empty()) =~= done.push(current@));
    assert(texts_view(urls@) =~= tokens_of(done));
    while i < chars.len()
        invariant
            i <= chars.len(),
            split_on_commas(chars@.take(i as int)) == done.push(current@),
            texts_view(urls@) == tokens_of(done),
        decreases chars.len() - i,
    {
        let c = chars[i];
        proof {
            let now = chars@.take(i as int + 1);
            assert(now.drop_last() =~= chars@.take(i as int));
            assert(now.last() == c);
            assert(done.push(current@).drop_last() =~= done);
        }
        if c == ',' {
            let ghost prior = texts_view(urls@);
            if current.len() > 0 {
                let token = strip(&strip(&current, Strip::Space), Strip::Quote);
                urls.push(string_of(&token));
                assert(texts_view(urls@) =~= prior.push(token_text(current@)));
            }
            proof {
                assert(done.push(current@).drop_last() =~= done);
                done = done.push(current@);
            }
            current = Vec::new();
        } else {
            current.push(c);
        }
        i += 1;
    }
    proof {
        assert(chars@.take(i as int) =~= chars@);
        assert(done.push(current@).drop_last() =~= done);
    }
    let ghost prior = texts_view(urls@);
    if current.len() > 0 {
        let token = strip(&strip(&current, Strip::Space), Strip::Quote);
        urls.push(string_of(&token));
        assert(texts_view(urls@) =~= prior.push(token_text(current@)));
    }
    urls
}

/// Writes the list text of `urls`.
pub fn render_url_list(urls: &Vec<String>) -> (text: String)
    ensures
        text@ == render_list(texts_view(urls@)),
{
    let mut out: Vec<char> = Vec::new();
    let mut i: usize = 0;
    assert(texts_view(urls@).take(0) =~= Seq::empty());
    while i < urls.len()
        invariant
            i <= urls.len(),
            out@ == render_list(texts_view(urls@).take(i as int)),
        decreases urls.len() - i,
    {
        let ghost start = out@;
        let ghost now = texts_view(urls@).take(i as int + 1);
        proof {
            assert(now.drop_last() =~= texts_view(urls@).take(i as int));
            assert(now.last() == urls@[i as int]@);
            if i == 0 {
                assert(now[0] == now.last());
            }
        }
        if i > 0 {
            out.push(',');
        }
        out.push('"');
        let chars = to_chars(urls[i].as_str());
        let ghost mid = out@;
        let mut k: usize = 0;
        while k < chars.len()
            invariant
                k <= chars.len(),
                out@ == mid + chars@.take(k as int),
            decreases chars.len() - k,
        {
            out.push(chars[k]);
            assert(chars@.take(k as int + 1) =~= chars@.take(k as int).push(chars@[k as int]));
            k += 1;
        }
        assert(chars@.take(k as int) =~= chars@);
        out.push('"');
        proof {
            if i == 0 {
                assert(start =~= Seq::empty());
                assert(out@ =~= quoted(chars@));
            } else {
                assert(out@ =~= start + seq![','] + quoted(chars@));
            }
        }
        i += 1;
    }
    assert(texts_view(urls@).take(i as int) =~= texts_view(urls@));
    string_of(&out)
}

/// Merges the URLs of the records `found` into the list text `content`
/// and writes the new list text: the sorted union of the URLs that
/// `content` holds and the URLs of `found`.
pub fn merge_url_list(content: &str, found: &Vec<UrlData>) -> (text: String)
    ensures
        text@ == render_list(
            sorted_union(list_tokens(content@), record_urls(records_view(found@))),
        ),
        is_union_list(
            sorted_union(list_tokens(content@), record_urls(records_view(found@))),
            list_tokens(content@),
            record_urls(records_view(found@)),
        ),
{
    let existing = parse_url_list(content);
    let merged = merge_urls(&existing, found);
    render_url_list(&merged)
}

} // verus!

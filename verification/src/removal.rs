//! Removing a document takes away exactly what adding it put into the
//! inverted index: the proof works term by term, relating the index with
//! the occurrences of a document in one field to the index without them.
use vstd::prelude::*;

use crate::engine::{
    Postings,
    WarningView,
    field_texts,
    lengths_add_document,
    index_add,
    index_add_document,
    index_add_terms,
    index_remove,
    index_remove_document,
    index_remove_refs,
    index_remove_terms,
    live_docs,
    live_postings,
    has_stale,
    vacuumed,
    posting_add,
    posting_has,
    posting_remove,
};
use crate::tokens::text_terms;
use crate::written::distinct_names;
use crate::vecmap::{
    assoc_get,
    assoc_remove,
    assoc_set,
    has_key,
    index_of,
    lemma_assoc_remove_unique,
    lemma_assoc_set_unique,
    unique_keys,
};

verus! {

/// Keys are unique at both levels of the postings.
pub open spec fn postings_unique(data: Postings) -> bool {
    &&& unique_keys(data)
    &&& forall|j: int| 0 <= j < data.len() ==> unique_keys(#[trigger] data[j].1)
}

/// Every term has a field, and every field a document.
pub open spec fn postings_compact(data: Postings) -> bool {
    &&& data.len() > 0
    &&& forall|j: int| 0 <= j < data.len() ==> (#[trigger] data[j]).1.len() > 0
}

/// The postings of every term have unique keys.
pub open spec fn index_unique(index: Map<Seq<char>, Postings>) -> bool {
    forall|t: Seq<char>| #[trigger] index.contains_key(t) ==> postings_unique(index[t])
}

/// The postings of every term are compact.
pub open spec fn index_compact(index: Map<Seq<char>, Postings>) -> bool {
    forall|t: Seq<char>| #[trigger] index.contains_key(t) ==> postings_compact(index[t])
}

/// The postings of a term, or none.
pub open spec fn postings_or_empty(index: Map<Seq<char>, Postings>, term: Seq<char>) -> Postings {
    if index.contains_key(term) {
        index[term]
    } else {
        Seq::empty()
    }
}

/// `with` is `without` plus `count` occurrences in field `field` of
/// document `doc`, which `without` does not have in that field: either the
/// field's document list gained the entry at its end, or the field was
/// inserted somewhere with that entry alone.
pub open spec fn posting_extra(
    with: Postings,
    without: Postings,
    field: u32,
    doc: u32,
    count: nat,
) -> bool {
    ||| {
        &&& has_key(without, field)
        &&& assoc_get(without, field)->Some_0.len() > 0
        &&& !has_key(assoc_get(without, field)->Some_0, doc)
        &&& with == assoc_set(
            without,
            field,
            assoc_get(without, field)->Some_0.push((doc, count as u32)),
        )
    }
    ||| {
        &&& !has_key(without, field)
        &&& exists|p: int|
            0 <= p < with.len() && #[trigger] with[p] == (field, seq![(doc, count as u32)])
                && with.remove(p) == without
    }
}

/// `with` is `without` plus, for every term, `counts` of its occurrences
/// in field `field` of document `doc`.
pub open spec fn index_extra(
    with: Map<Seq<char>, Postings>,
    without: Map<Seq<char>, Postings>,
    field: u32,
    doc: u32,
    counts: spec_fn(Seq<char>) -> nat,
) -> bool {
    &&& forall|t: Seq<char>|
        #[trigger] counts(t) == 0 ==> (with.contains_key(t) == without.contains_key(t) && (
        without.contains_key(t) ==> with[t] == without[t]))
    &&& forall|t: Seq<char>|
        #[trigger] counts(t) > 0 ==> {
            &&& with.contains_key(t)
            &&& counts(t) < u32::MAX
            &&& posting_extra(with[t], postings_or_empty(without, t), field, doc, counts(t))
        }
}

/// The occurrences of `term` among `terms`.
pub open spec fn occurrences(terms: Seq<Seq<char>>, term: Seq<char>) -> nat
    decreases terms.len(),
{
    if terms.len() == 0 {
        0
    } else {
        occurrences(terms.drop_last(), term) + if terms.last() == term {
            1nat
        } else {
            0nat
        }
    }
}

/// Setting two different keys in either order gives the same entries.
proof fn lemma_assoc_set_commute<K, V>(entries: Seq<(K, V)>, a: K, va: V, b: K, vb: V)
    requires
        unique_keys(entries),
        a != b,
        has_key(entries, a),
    ensures
        assoc_set(assoc_set(entries, a, va), b, vb) == assoc_set(assoc_set(entries, b, vb), a, va),
{
    let i = index_of(entries, a);
    assert(entries[i].0 == a);
    let ea = assoc_set(entries, a, va);
    lemma_assoc_set_unique(entries, a, va);
    assert(ea[i].0 == a);
    if has_key(entries, b) {
        let j = index_of(entries, b);
        assert(entries[j].0 == b);
        assert(ea[j].0 == b);
        assert(index_of(ea, b) == j);
        let eb = assoc_set(entries, b, vb);
        assert(eb[i].0 == a);
        assert(index_of(eb, a) == i);
        assert(assoc_set(ea, b, vb) =~= assoc_set(eb, a, va));
    } else {
        if has_key(ea, b) {
            let j = index_of(ea, b);
            assert(j != i);
            assert(ea[j] == entries[j]);
        }
        let eb = assoc_set(entries, b, vb);
        assert(eb[i].0 == a);
        assert(index_of(eb, a) == i);
        assert(assoc_set(ea, b, vb) =~= assoc_set(eb, a, va));
    }
}

/// Setting a key twice keeps the second value.
proof fn lemma_assoc_set_twice<K, V>(entries: Seq<(K, V)>, key: K, first: V, second: V)
    requires
        unique_keys(entries),
    ensures
        assoc_set(assoc_set(entries, key, first), key, second) == assoc_set(entries, key, second),
{
    lemma_assoc_set_unique(entries, key, first);
    let e = assoc_set(entries, key, first);
    let p = if has_key(entries, key) { index_of(entries, key) } else { entries.len() as int };
    if has_key(entries, key) {
        assert(entries[p].0 == key);
    }
    assert(e[p].0 == key);
    assert(index_of(e, key) == p);
    assert(assoc_set(e, key, second) =~= assoc_set(entries, key, second));
}

/// Setting a key back to its value leaves the entries as they were.
proof fn lemma_assoc_set_same<K, V>(entries: Seq<(K, V)>, key: K)
    requires
        has_key(entries, key),
    ensures
        assoc_set(entries, key, assoc_get(entries, key)->Some_0) == entries,
{
    let i = index_of(entries, key);
    assert(entries[i].0 == key);
    assert(assoc_set(entries, key, assoc_get(entries, key)->Some_0) =~= entries);
}

/// The entries of a key at a known position.
proof fn lemma_assoc_at<K, V>(entries: Seq<(K, V)>, i: int)
    requires
        unique_keys(entries),
        0 <= i < entries.len(),
    ensures
        has_key(entries, entries[i].0),
        index_of(entries, entries[i].0) == i,
        assoc_get(entries, entries[i].0) == Some(entries[i].1),
{
    let k = entries[i].0;
    assert(has_key(entries, k));
    let j = index_of(entries, k);
    assert(entries[j].0 == k);
}

/// The entries with a key set keep every other key's value, and a key
/// that was there stays.
proof fn lemma_assoc_set_keys<K, V>(entries: Seq<(K, V)>, key: K, value: V, other: K)
    requires
        unique_keys(entries),
    ensures
        has_key(assoc_set(entries, key, value), other) == (other == key || has_key(entries, other)),
{
    lemma_assoc_set_unique(entries, key, value);
    if other != key {
        assert(assoc_get(assoc_set(entries, key, value), other) == assoc_get(entries, other));
    }
}

/// Adding an occurrence in another field, or of another document, keeps
/// the postings unique.
proof fn lemma_posting_add_unique(data: Postings, field: u32, doc: u32)
    requires
        postings_unique(data),
    ensures
        postings_unique(posting_add(data, field, doc)),
        data.len() == 0 || postings_compact(data) ==> postings_compact(posting_add(data, field, doc)),
{
    let docs = match assoc_get(data, field) {
        Some(docs) => docs,
        None => Seq::empty(),
    };
    let freq: u32 = match assoc_get(docs, doc) {
        Some(freq) => freq,
        None => 0,
    };
    let nd = assoc_set(docs, doc, (if freq == u32::MAX { 0 } else { freq + 1 }) as u32);
    if has_key(data, field) {
        let i = index_of(data, field);
        assert(data[i].0 == field);
        assert(unique_keys(data[i].1));
    } else {
        assert(unique_keys(docs));
    }
    lemma_assoc_set_unique(docs, doc, (if freq == u32::MAX { 0 } else { freq + 1 }) as u32);
    lemma_assoc_set_unique(data, field, nd);
    let r = assoc_set(data, field, nd);
    assert(nd.len() > 0) by {
        assert(has_key(nd, doc));
    }
    let p = if has_key(data, field) { index_of(data, field) } else { data.len() as int };
    if has_key(data, field) {
        assert(data[p].0 == field);
    }
    assert(r[p] == (field, nd));
    assert forall|j: int| 0 <= j < r.len() implies unique_keys(#[trigger] r[j].1) by {
        if j != p {
            assert(r[j] == data[j]);
        }
    }
    if data.len() == 0 || postings_compact(data) {
        assert forall|j: int| 0 <= j < r.len() implies (#[trigger] r[j]).1.len() > 0 by {
            if j != p {
                assert(r[j] == data[j]);
            }
        }
    }
}

/// Taking away an occurrence keeps the postings unique.
proof fn lemma_posting_remove_unique(data: Postings, field: u32, doc: u32)
    requires
        postings_unique(data),
        posting_has(data, field, doc),
    ensures
        postings_unique(posting_remove(data, field, doc)),
{
    let docs = assoc_get(data, field)->Some_0;
    let freq = assoc_get(docs, doc)->Some_0;
    let i = index_of(data, field);
    assert(data[i].0 == field);
    assert(unique_keys(docs));
    if freq <= 1 {
        if docs.len() <= 1 {
            lemma_assoc_remove_unique(data, field);
            let r = assoc_remove(data, field);
            assert forall|j: int| 0 <= j < r.len() implies unique_keys(#[trigger] r[j].1) by {
                let fj = if j < i { j } else { j + 1 };
                assert(r[j] == data[fj]);
            }
        } else {
            lemma_assoc_remove_unique(docs, doc);
            let nd = assoc_remove(docs, doc);
            lemma_assoc_set_unique(data, field, nd);
            let r = assoc_set(data, field, nd);
            assert forall|j: int| 0 <= j < r.len() implies unique_keys(#[trigger] r[j].1) by {
                if j != i {
                    assert(r[j] == data[j]);
                }
            }
        }
    } else {
        lemma_assoc_set_unique(docs, doc, (freq - 1) as u32);
        let nd = assoc_set(docs, doc, (freq - 1) as u32);
        lemma_assoc_set_unique(data, field, nd);
        let r = assoc_set(data, field, nd);
        assert forall|j: int| 0 <= j < r.len() implies unique_keys(#[trigger] r[j].1) by {
            if j != i {
                assert(r[j] == data[j]);
            }
        }
    }
}

/// An occurrence in another field carries over to the postings without
/// the extra occurrences.
proof fn lemma_extra_add_other(
    with: Postings,
    without: Postings,
    field: u32,
    doc: u32,
    count: nat,
    other: u32,
)
    requires
        postings_unique(with),
        postings_unique(without),
        posting_extra(with, without, field, doc, count),
        other != field,
    ensures
        posting_extra(posting_add(with, other, doc), posting_add(without, other, doc), field, doc, count),
{
    let wo = assoc_get(without, other);
    if has_key(without, field) {
        let d = assoc_get(without, field)->Some_0;
        let dp = d.push((doc, count as u32));
        lemma_assoc_set_unique(without, field, dp);
        assert(assoc_get(with, other) == wo);
        let docs = match wo {
            Some(docs) => docs,
            None => Seq::empty(),
        };
        let freq: u32 = match assoc_get(docs, doc) {
            Some(freq) => freq,
            None => 0,
        };
        let nd = assoc_set(docs, doc, (if freq == u32::MAX { 0 } else { freq + 1 }) as u32);
        lemma_assoc_set_commute(without, field, dp, other, nd);
        let w2 = assoc_set(without, other, nd);
        lemma_assoc_set_unique(without, other, nd);
        assert(assoc_get(w2, field) == Some(d));
        lemma_assoc_set_keys(without, other, nd, field);
    } else {
        let p = choose|p: int|
            0 <= p < with.len() && #[trigger] with[p] == (field, seq![(doc, count as u32)])
                && with.remove(p) == without;
        // Keys of `with` are those of `without` and the field at `p`.
        assert forall|q: int| 0 <= q < without.len() implies #[trigger] without[q] == with[if q < p {
            q
        } else {
            q + 1
        }] by {
            assert(with.remove(p)[q] == without[q]);
        }
        if has_key(without, other) {
            let q = index_of(without, other);
            assert(without[q].0 == other);
            let q2 = if q < p { q } else { q + 1 };
            assert(with[q2] == without[q]);
            lemma_assoc_at(with, q2);
            lemma_assoc_at(without, q);
            let docs = without[q].1;
            let freq: u32 = match assoc_get(docs, doc) {
                Some(freq) => freq,
                None => 0,
            };
            let nd = assoc_set(docs, doc, (if freq == u32::MAX { 0 } else { freq + 1 }) as u32);
            let w1 = assoc_set(with, other, nd);
            let w2 = assoc_set(without, other, nd);
            assert(w1 == with.update(q2, (other, nd)));
            assert(w2 == without.update(q, (other, nd)));
            assert(w1[p] == with[p]);
            assert(w1.remove(p) =~= w2);
            if has_key(w2, field) {
                let k = index_of(w2, field);
                if k == q {
                } else {
                    assert(w2[k] == without[k]);
                }
            }
            assert(posting_add(with, other, doc) == w1);
            assert(posting_add(without, other, doc) == w2);
        } else {
            if has_key(with, other) {
                let q = index_of(with, other);
                assert(q != p);
                let q1 = if q < p { q } else { q - 1 };
                assert(without[q1] == with[q]);
            }
            let nd = assoc_set(Seq::<(u32, u32)>::empty(), doc, 1u32);
            let w1 = with.push((other, nd));
            let w2 = without.push((other, nd));
            assert(posting_add(with, other, doc) == w1);
            assert(posting_add(without, other, doc) == w2);
            assert(w1[p] == with[p]);
            assert(w1.remove(p) =~= w2);
            if has_key(w2, field) {
                let k = index_of(w2, field);
                assert(k < without.len());
            }
        }
    }
}

/// The first occurrence in a field of a document that the postings do not
/// have there.
proof fn lemma_extra_add_first(base: Postings, field: u32, doc: u32)
    requires
        postings_unique(base),
        has_key(base, field) ==> assoc_get(base, field)->Some_0.len() > 0,
        !posting_has(base, field, doc),
    ensures
        posting_extra(posting_add(base, field, doc), base, field, doc, 1),
{
    if has_key(base, field) {
        let d = assoc_get(base, field)->Some_0;
        let i = index_of(base, field);
        assert(base[i].0 == field);
        assert(!has_key(d, doc));
        assert(assoc_set(d, doc, 1u32) == d.push((doc, 1u32)));
    } else {
        let nd = assoc_set(Seq::<(u32, u32)>::empty(), doc, 1u32);
        assert(nd =~= seq![(doc, 1u32)]);
        let w = base.push((field, nd));
        assert(posting_add(base, field, doc) == w);
        let p = base.len() as int;
        assert(w[p] == (field, seq![(doc, 1u32)]));
        assert(w.remove(p) =~= base);
    }
}

/// One more occurrence in the field of the extra document.
proof fn lemma_extra_add_more(with: Postings, without: Postings, field: u32, doc: u32, count: nat)
    requires
        postings_unique(with),
        postings_unique(without),
        posting_extra(with, without, field, doc, count),
        0 < count,
        count + 1 < u32::MAX,
    ensures
        posting_extra(posting_add(with, field, doc), without, field, doc, count + 1),
{
    let c = count as u32;
    if has_key(without, field) {
        let d = assoc_get(without, field)->Some_0;
        let dp = d.push((doc, c));
        lemma_assoc_set_unique(without, field, dp);
        assert(assoc_get(with, field) == Some(dp));
        let n = d.len() as int;
        assert(dp[n].0 == doc);
        assert(unique_keys(dp)) by {
            assert forall|i: int, j: int|
                0 <= i < dp.len() && 0 <= j < dp.len() && i != j implies (#[trigger] dp[i]).0
                != (#[trigger] dp[j]).0 by {
                if i < n && j < n {
                    assert(dp[i] == d[i] && dp[j] == d[j]);
                    let k = index_of(without, field);
                    assert(without[k].0 == field);
                    assert(unique_keys(without[k].1));
                } else if i < n {
                    assert(dp[i] == d[i]);
                    if d[i].0 == doc {
                        assert(has_key(d, doc));
                    }
                } else if j < n {
                    assert(dp[j] == d[j]);
                    if d[j].0 == doc {
                        assert(has_key(d, doc));
                    }
                }
            }
        }
        lemma_assoc_at(dp, n);
        let dq = dp.update(n, (doc, (c + 1) as u32));
        assert(assoc_set(dp, doc, (c + 1) as u32) == dq);
        assert(dq =~= d.push((doc, (count + 1) as u32)));
        lemma_assoc_set_twice(without, field, dp, dq);
    } else {
        let p = choose|p: int|
            0 <= p < with.len() && #[trigger] with[p] == (field, seq![(doc, c)]) && with.remove(p)
                == without;
        lemma_assoc_at(with, p);
        let one = seq![(doc, c)];
        lemma_assoc_at(one, 0);
        assert(assoc_set(one, doc, (c + 1) as u32) =~= seq![(doc, (count + 1) as u32)]);
        let w = with.update(p, (field, seq![(doc, (count + 1) as u32)]));
        assert(posting_add(with, field, doc) == w);
        assert(w[p] == (field, seq![(doc, (count + 1) as u32)]));
        assert(w.remove(p) =~= with.remove(p));
    }
}

/// Taking away one of the extra occurrences: it is there, and at the last
/// one the postings are back to those without them.
proof fn lemma_extra_remove(with: Postings, without: Postings, field: u32, doc: u32, count: nat)
    requires
        postings_unique(with),
        postings_unique(without),
        posting_extra(with, without, field, doc, count),
        0 < count < u32::MAX,
    ensures
        posting_has(with, field, doc),
        count > 1 ==> posting_extra(posting_remove(with, field, doc), without, field, doc, (count - 1) as nat),
        count == 1 ==> posting_remove(with, field, doc) == without,
{
    let c = count as u32;
    if has_key(without, field) {
        let d = assoc_get(without, field)->Some_0;
        let dp = d.push((doc, c));
        lemma_assoc_set_unique(without, field, dp);
        assert(assoc_get(with, field) == Some(dp));
        let n = d.len() as int;
        assert(unique_keys(dp)) by {
            assert forall|i: int, j: int|
                0 <= i < dp.len() && 0 <= j < dp.len() && i != j implies (#[trigger] dp[i]).0
                != (#[trigger] dp[j]).0 by {
                if i < n && j < n {
                    assert(dp[i] == d[i] && dp[j] == d[j]);
                    let k = index_of(without, field);
                    assert(without[k].0 == field);
                    assert(unique_keys(without[k].1));
                } else if i < n {
                    assert(dp[i] == d[i]);
                    if d[i].0 == doc {
                        assert(has_key(d, doc));
                    }
                } else if j < n {
                    assert(dp[j] == d[j]);
                    if d[j].0 == doc {
                        assert(has_key(d, doc));
                    }
                }
            }
        }
        lemma_assoc_at(dp, n);
        assert(posting_has(with, field, doc));
        if count > 1 {
            let dq = dp.update(n, (doc, (c - 1) as u32));
            assert(assoc_set(dp, doc, (c - 1) as u32) == dq);
            assert(dq =~= d.push((doc, (count - 1) as u32)));
            lemma_assoc_set_twice(without, field, dp, dq);
        } else {
            assert(dp.len() > 1);
            assert(assoc_remove(dp, doc) =~= d);
            lemma_assoc_set_twice(without, field, dp, d);
            lemma_assoc_set_same(without, field);
        }
    } else {
        let p = choose|p: int|
            0 <= p < with.len() && #[trigger] with[p] == (field, seq![(doc, c)]) && with.remove(p)
                == without;
        lemma_assoc_at(with, p);
        let one = seq![(doc, c)];
        lemma_assoc_at(one, 0);
        assert(posting_has(with, field, doc));
        if count > 1 {
            assert(assoc_set(one, doc, (c - 1) as u32) =~= seq![(doc, (count - 1) as u32)]);
            let w = with.update(p, (field, seq![(doc, (count - 1) as u32)]));
            assert(posting_remove(with, field, doc) == w);
            assert(w[p] == (field, seq![(doc, (count - 1) as u32)]));
            assert(w.remove(p) =~= with.remove(p));
        } else {
            assert(posting_remove(with, field, doc) == assoc_remove(with, field));
        }
    }
}

/// Adding an occurrence keeps the index unique and compact.
proof fn lemma_index_add_keeps(index: Map<Seq<char>, Postings>, term: Seq<char>, field: u32, doc: u32)
    requires
        index_unique(index),
    ensures
        index_unique(index_add(index, term, field, doc)),
        index_compact(index) ==> index_compact(index_add(index, term, field, doc)),
{
    let data = postings_or_empty(index, term);
    lemma_posting_add_unique(data, field, doc);
}

/// An occurrence in another field carries over to the index without the
/// extra occurrences.
proof fn lemma_index_extra_add_other(
    with: Map<Seq<char>, Postings>,
    without: Map<Seq<char>, Postings>,
    field: u32,
    doc: u32,
    counts: spec_fn(Seq<char>) -> nat,
    term: Seq<char>,
    other: u32,
)
    requires
        index_unique(with),
        index_unique(without),
        index_extra(with, without, field, doc, counts),
        other != field,
    ensures
        index_extra(
            index_add(with, term, other, doc),
            index_add(without, term, other, doc),
            field,
            doc,
            counts,
        ),
{
    let w1 = index_add(with, term, other, doc);
    let w2 = index_add(without, term, other, doc);
    assert(postings_or_empty(w2, term) == posting_add(postings_or_empty(without, term), other, doc));
    if counts(term) > 0 {
        let base = postings_or_empty(without, term);
        assert(postings_unique(base));
        lemma_extra_add_other(with[term], base, field, doc, counts(term), other);
    } else {
        assert(postings_or_empty(with, term) == postings_or_empty(without, term));
    }
    assert forall|t: Seq<char>| #[trigger] counts(t) == 0 implies (w1.contains_key(t) == w2.contains_key(t)
        && (w2.contains_key(t) ==> w1[t] == w2[t])) by {
        if t != term {
            assert(w1.contains_key(t) == with.contains_key(t));
        }
    }
    assert forall|t: Seq<char>| #[trigger] counts(t) > 0 implies {
        &&& w1.contains_key(t)
        &&& counts(t) < u32::MAX
        &&& posting_extra(w1[t], postings_or_empty(w2, t), field, doc, counts(t))
    } by {
        if t != term {
            assert(postings_or_empty(w2, t) == postings_or_empty(without, t));
        }
    }
}

/// One more occurrence in the field of the extra document.
proof fn lemma_index_extra_add_same(
    with: Map<Seq<char>, Postings>,
    without: Map<Seq<char>, Postings>,
    field: u32,
    doc: u32,
    counts: spec_fn(Seq<char>) -> nat,
    after: spec_fn(Seq<char>) -> nat,
    term: Seq<char>,
)
    requires
        index_unique(with),
        index_unique(without),
        index_compact(without),
        index_extra(with, without, field, doc, counts),
        counts(term) + 1 < u32::MAX,
        without.contains_key(term) ==> !posting_has(without[term], field, doc),
        after(term) == counts(term) + 1,
        forall|t: Seq<char>| t != term ==> #[trigger] after(t) == counts(t),
    ensures
        index_extra(index_add(with, term, field, doc), without, field, doc, after),
{
    let w1 = index_add(with, term, field, doc);
    let base = postings_or_empty(without, term);
    assert(postings_unique(base));
    if counts(term) > 0 {
        lemma_extra_add_more(with[term], base, field, doc, counts(term));
    } else {
        assert(postings_or_empty(with, term) == base);
        if has_key(base, field) {
            let i = index_of(base, field);
            assert(base[i].0 == field);
            assert(postings_compact(without[term]));
        }
        lemma_extra_add_first(base, field, doc);
    }
    assert forall|t: Seq<char>| #[trigger] after(t) == 0 implies (w1.contains_key(t)
        == without.contains_key(t) && (without.contains_key(t) ==> w1[t] == without[t])) by {
        assert(t != term);
        assert(counts(t) == 0);
    }
    assert forall|t: Seq<char>| #[trigger] after(t) > 0 implies {
        &&& w1.contains_key(t)
        &&& after(t) < u32::MAX
        &&& posting_extra(w1[t], postings_or_empty(without, t), field, doc, after(t))
    } by {
        if t != term {
            assert(counts(t) > 0);
        }
    }
}

/// Taking away one of the extra occurrences of `term`: it is there, and
/// the index keeps one occurrence fewer of it.
proof fn lemma_index_extra_remove(
    with: Map<Seq<char>, Postings>,
    without: Map<Seq<char>, Postings>,
    field: u32,
    doc: u32,
    counts: spec_fn(Seq<char>) -> nat,
    after: spec_fn(Seq<char>) -> nat,
    term: Seq<char>,
)
    requires
        index_unique(with),
        index_unique(without),
        index_compact(without),
        index_extra(with, without, field, doc, counts),
        counts(term) > 0,
        after(term) == counts(term) - 1,
        forall|t: Seq<char>| t != term ==> #[trigger] after(t) == counts(t),
    ensures
        with.contains_key(term) && posting_has(with[term], field, doc),
        index_extra(index_remove(with, term, field, doc), without, field, doc, after),
        index_unique(index_remove(with, term, field, doc)),
{
    let base = postings_or_empty(without, term);
    assert(postings_unique(base));
    lemma_extra_remove(with[term], base, field, doc, counts(term));
    let data = posting_remove(with[term], field, doc);
    lemma_posting_remove_unique(with[term], field, doc);
    let w1 = index_remove(with, term, field, doc);
    if counts(term) == 1 {
        if without.contains_key(term) {
            assert(postings_compact(without[term]));
        }
        assert(data == base);
    }
    assert forall|t: Seq<char>| #[trigger] after(t) == 0 implies (w1.contains_key(t)
        == without.contains_key(t) && (without.contains_key(t) ==> w1[t] == without[t])) by {
        if t != term {
            assert(counts(t) == 0);
        }
    }
    assert forall|t: Seq<char>| #[trigger] after(t) > 0 implies {
        &&& w1.contains_key(t)
        &&& after(t) < u32::MAX
        &&& posting_extra(w1[t], postings_or_empty(without, t), field, doc, after(t))
    } by {
        if t != term {
            assert(counts(t) > 0);
        } else {
            assert(posting_extra(data, base, field, doc, after(t)));
            assert(data.len() > 0) by {
                if has_key(base, field) {
                    let d = assoc_get(base, field)->Some_0;
                    lemma_assoc_set_unique(base, field, d.push((doc, after(t) as u32)));
                    assert(has_key(data, field));
                } else {
                    let p = choose|p: int|
                        0 <= p < data.len() && #[trigger] data[p] == (field, seq![(doc, after(t) as u32)])
                            && data.remove(p) == base;
                }
            }
        }
    }
    assert forall|t: Seq<char>| #[trigger] w1.contains_key(t) implies postings_unique(w1[t]) by {
        if t != term {
            assert(with.contains_key(t));
        }
    }
}

/// A term occurs at most as often as there are terms.
proof fn lemma_occurrences_bound(terms: Seq<Seq<char>>, term: Seq<char>)
    ensures
        occurrences(terms, term) <= terms.len(),
    decreases terms.len(),
{
    if terms.len() > 0 {
        lemma_occurrences_bound(terms.drop_last(), term);
    }
}

/// Counting from the front: the first term, then the others.
proof fn lemma_occurrences_front(terms: Seq<Seq<char>>, term: Seq<char>)
    requires
        terms.len() > 0,
    ensures
        occurrences(terms, term) == occurrences(terms.skip(1), term) + if terms[0] == term {
            1nat
        } else {
            0nat
        },
    decreases terms.len(),
{
    if terms.len() > 1 {
        lemma_occurrences_front(terms.drop_last(), term);
        assert(terms.drop_last().skip(1) =~= terms.skip(1).drop_last());
        assert(terms.skip(1).last() == terms.last());
    } else {
        assert(terms.skip(1) =~= Seq::<Seq<char>>::empty());
        assert(terms.drop_last() =~= Seq::<Seq<char>>::empty());
    }
}

/// Adding terms keeps the index unique and compact.
proof fn lemma_add_terms_keeps(index: Map<Seq<char>, Postings>, terms: Seq<Seq<char>>, field: u32, doc: u32)
    requires
        index_unique(index),
    ensures
        index_unique(index_add_terms(index, terms, field, doc)),
        index_compact(index) ==> index_compact(index_add_terms(index, terms, field, doc)),
    decreases terms.len(),
{
    if terms.len() > 0 {
        lemma_add_terms_keeps(index, terms.drop_last(), field, doc);
        lemma_index_add_keeps(
            index_add_terms(index, terms.drop_last(), field, doc),
            terms.last(),
            field,
            doc,
        );
    }
}

/// Adding field texts keeps the index unique and compact.
pub(crate) proof fn lemma_add_document_keeps(index: Map<Seq<char>, Postings>, texts: Seq<(u32, Seq<char>)>, doc: u32)
    requires
        index_unique(index),
    ensures
        index_unique(index_add_document(index, texts, doc)),
        index_compact(index) ==> index_compact(index_add_document(index, texts, doc)),
    decreases texts.len(),
{
    if texts.len() > 0 {
        lemma_add_document_keeps(index, texts.drop_last(), doc);
        lemma_add_terms_keeps(
            index_add_document(index, texts.drop_last(), doc),
            text_terms(texts.last().1),
            texts.last().0,
            doc,
        );
    }
}

/// Adding the terms of a field for a document that the index does not have
/// there adds, for every term, its occurrences.
proof fn lemma_add_terms_extra(
    index: Map<Seq<char>, Postings>,
    terms: Seq<Seq<char>>,
    field: u32,
    doc: u32,
)
    requires
        index_unique(index),
        index_compact(index),
        forall|t: Seq<char>| #[trigger] index.contains_key(t) ==> !posting_has(index[t], field, doc),
        terms.len() + 1 < u32::MAX,
    ensures
        index_extra(
            index_add_terms(index, terms, field, doc),
            index,
            field,
            doc,
            |t: Seq<char>| occurrences(terms, t),
        ),
        index_unique(index_add_terms(index, terms, field, doc)),
    decreases terms.len(),
{
    let counts = |t: Seq<char>| occurrences(terms, t);
    if terms.len() == 0 {
        assert forall|t: Seq<char>| #[trigger] counts(t) == 0 by {}
    } else {
        let before = terms.drop_last();
        lemma_add_terms_extra(index, before, field, doc);
        let x = index_add_terms(index, before, field, doc);
        lemma_occurrences_bound(before, terms.last());
        lemma_index_extra_add_same(
            x,
            index,
            field,
            doc,
            |t: Seq<char>| occurrences(before, t),
            counts,
            terms.last(),
        );
        lemma_index_add_keeps(x, terms.last(), field, doc);
    }
}

/// Adding the terms of another field keeps the extra occurrences.
proof fn lemma_add_terms_other(
    with: Map<Seq<char>, Postings>,
    without: Map<Seq<char>, Postings>,
    terms: Seq<Seq<char>>,
    other: u32,
    doc: u32,
    field: u32,
    counts: spec_fn(Seq<char>) -> nat,
)
    requires
        index_unique(with),
        index_unique(without),
        index_extra(with, without, field, doc, counts),
        other != field,
    ensures
        index_extra(
            index_add_terms(with, terms, other, doc),
            index_add_terms(without, terms, other, doc),
            field,
            doc,
            counts,
        ),
        index_unique(index_add_terms(with, terms, other, doc)),
        index_unique(index_add_terms(without, terms, other, doc)),
    decreases terms.len(),
{
    if terms.len() > 0 {
        let before = terms.drop_last();
        lemma_add_terms_other(with, without, before, other, doc, field, counts);
        let w1 = index_add_terms(with, before, other, doc);
        let w2 = index_add_terms(without, before, other, doc);
        lemma_index_extra_add_other(w1, w2, field, doc, counts, terms.last(), other);
        lemma_index_add_keeps(w1, terms.last(), other, doc);
        lemma_index_add_keeps(w2, terms.last(), other, doc);
    }
}

/// Adding the texts of other fields keeps the extra occurrences.
proof fn lemma_add_document_other(
    with: Map<Seq<char>, Postings>,
    without: Map<Seq<char>, Postings>,
    texts: Seq<(u32, Seq<char>)>,
    doc: u32,
    field: u32,
    counts: spec_fn(Seq<char>) -> nat,
)
    requires
        index_unique(with),
        index_unique(without),
        index_extra(with, without, field, doc, counts),
        forall|i: int| 0 <= i < texts.len() ==> (#[trigger] texts[i]).0 != field,
    ensures
        index_extra(
            index_add_document(with, texts, doc),
            index_add_document(without, texts, doc),
            field,
            doc,
            counts,
        ),
        index_unique(index_add_document(with, texts, doc)),
        index_unique(index_add_document(without, texts, doc)),
    decreases texts.len(),
{
    if texts.len() > 0 {
        let before = texts.drop_last();
        assert forall|i: int| 0 <= i < before.len() implies (#[trigger] before[i]).0 != field by {
            assert(before[i] == texts[i]);
        }
        lemma_add_document_other(with, without, before, doc, field, counts);
        assert(texts.last() == texts[texts.len() - 1]);
        lemma_add_terms_other(
            index_add_document(with, before, doc),
            index_add_document(without, before, doc),
            text_terms(texts.last().1),
            texts.last().0,
            doc,
            field,
            counts,
        );
    }
}

/// Taking away the first `k` terms of a field, each of which the index has
/// as an extra occurrence, finds every one and leaves the occurrences of
/// the others.
proof fn lemma_remove_terms_prefix(
    with: Map<Seq<char>, Postings>,
    without: Map<Seq<char>, Postings>,
    terms: Seq<Seq<char>>,
    field: u32,
    doc: u32,
    fields: Seq<(Seq<char>, u32)>,
    documents: Seq<(u32, Seq<char>)>,
    k: int,
)
    requires
        index_unique(with),
        index_unique(without),
        index_compact(without),
        index_extra(with, without, field, doc, |t: Seq<char>| occurrences(terms, t)),
        0 <= k <= terms.len(),
    ensures
        index_remove_terms(with, terms.take(k), field, doc, fields, documents).1 == Seq::<
            WarningView,
        >::empty(),
        index_extra(
            index_remove_terms(with, terms.take(k), field, doc, fields, documents).0,
            without,
            field,
            doc,
            |t: Seq<char>| occurrences(terms.skip(k), t),
        ),
        index_unique(index_remove_terms(with, terms.take(k), field, doc, fields, documents).0),
    decreases k,
{
    if k == 0 {
        assert(terms.take(0) =~= Seq::<Seq<char>>::empty());
        assert(terms.skip(0) =~= terms);
        assert((|t: Seq<char>| occurrences(terms.skip(0), t)) =~= (|t: Seq<char>|
            occurrences(terms, t)));
    } else {
        lemma_remove_terms_prefix(with, without, terms, field, doc, fields, documents, k - 1);
        assert(terms.take(k).drop_last() =~= terms.take(k - 1));
        assert(terms.take(k).last() == terms[k - 1]);
        let rest = terms.skip(k - 1);
        assert(rest.skip(1) =~= terms.skip(k));
        assert(rest[0] == terms[k - 1]);
        assert forall|t: Seq<char>| #[trigger] occurrences(rest, t) == occurrences(terms.skip(k), t)
            + if terms[k - 1] == t {
            1nat
        } else {
            0nat
        } by {
            lemma_occurrences_front(rest, t);
        }
        let x = index_remove_terms(with, terms.take(k - 1), field, doc, fields, documents).0;
        lemma_index_extra_remove(
            x,
            without,
            field,
            doc,
            |t: Seq<char>| occurrences(rest, t),
            |t: Seq<char>| occurrences(terms.skip(k), t),
            terms[k - 1],
        );
    }
}

/// Taking away all the terms of a field that were added as extra
/// occurrences gives back the index without them, with no warning.
proof fn lemma_remove_terms_back(
    with: Map<Seq<char>, Postings>,
    without: Map<Seq<char>, Postings>,
    terms: Seq<Seq<char>>,
    field: u32,
    doc: u32,
    fields: Seq<(Seq<char>, u32)>,
    documents: Seq<(u32, Seq<char>)>,
)
    requires
        index_unique(with),
        index_unique(without),
        index_compact(without),
        index_extra(with, without, field, doc, |t: Seq<char>| occurrences(terms, t)),
    ensures
        index_remove_terms(with, terms, field, doc, fields, documents) == (
            without,
            Seq::<WarningView>::empty(),
        ),
{
    let n = terms.len() as int;
    lemma_remove_terms_prefix(with, without, terms, field, doc, fields, documents, n);
    assert(terms.take(n) =~= terms);
    let (x, w) = index_remove_terms(with, terms, field, doc, fields, documents);
    let none = terms.skip(n);
    assert(none =~= Seq::<Seq<char>>::empty());
    let counts = |u: Seq<char>| occurrences(terms.skip(n), u);
    assert(index_extra(x, without, field, doc, counts));
    assert forall|t: Seq<char>| #[trigger] without.contains_key(t) == x.contains_key(t) by {
        assert(counts(t) == 0);
    }
    assert forall|t: Seq<char>| #[trigger] x.contains_key(t) implies x[t] == without[t] by {
        assert(counts(t) == 0);
    }
    assert(x =~= without);
}

/// Adding field texts is adding the first, then the others.
proof fn lemma_add_document_front(index: Map<Seq<char>, Postings>, texts: Seq<(u32, Seq<char>)>, doc: u32)
    requires
        texts.len() > 0,
    ensures
        index_add_document(index, texts, doc) == index_add_document(
            index_add_terms(index, text_terms(texts[0].1), texts[0].0, doc),
            texts.skip(1),
            doc,
        ),
    decreases texts.len(),
{
    let first = index_add_terms(index, text_terms(texts[0].1), texts[0].0, doc);
    if texts.len() == 1 {
        assert(texts.drop_last() =~= Seq::<(u32, Seq<char>)>::empty());
        assert(texts.skip(1) =~= Seq::<(u32, Seq<char>)>::empty());
        assert(texts.last() == texts[0]);
        assert(index_add_document(index, texts.drop_last(), doc) == index);
        assert(index_add_document(first, texts.skip(1), doc) == first);
    } else {
        let before = texts.drop_last();
        lemma_add_document_front(index, before, doc);
        assert(before[0] == texts[0]);
        assert(texts.skip(1).drop_last() =~= before.skip(1));
        assert(texts.skip(1).last() == texts.last());
        assert(index_add_document(index, before, doc) == index_add_document(first, before.skip(1), doc));
        assert(index_add_document(index, texts, doc) == index_add_terms(
            index_add_document(index, before, doc),
            text_terms(texts.last().1),
            texts.last().0,
            doc,
        ));
        assert(index_add_document(first, texts.skip(1), doc) == index_add_terms(
            index_add_document(first, texts.skip(1).drop_last(), doc),
            text_terms(texts.skip(1).last().1),
            texts.skip(1).last().0,
            doc,
        ));
    }
}

/// Taking away field texts is taking away the first, then the others, the
/// warnings following in that order.
proof fn lemma_remove_document_front(
    index: Map<Seq<char>, Postings>,
    texts: Seq<(u32, Seq<char>)>,
    doc: u32,
    fields: Seq<(Seq<char>, u32)>,
    documents: Seq<(u32, Seq<char>)>,
)
    requires
        texts.len() > 0,
    ensures
        ({
            let (after, warnings) = index_remove_terms(
                index,
                text_terms(texts[0].1),
                texts[0].0,
                doc,
                fields,
                documents,
            );
            let (last, more) = index_remove_document(after, texts.skip(1), doc, fields, documents);
            index_remove_document(index, texts, doc, fields, documents) == (last, warnings + more)
        }),
    decreases texts.len(),
{
    let (after, warnings) = index_remove_terms(
        index,
        text_terms(texts[0].1),
        texts[0].0,
        doc,
        fields,
        documents,
    );
    if texts.len() == 1 {
        assert(texts.drop_last() =~= Seq::<(u32, Seq<char>)>::empty());
        assert(texts.skip(1) =~= Seq::<(u32, Seq<char>)>::empty());
        assert(texts.last() == texts[0]);
        assert(Seq::<WarningView>::empty() + warnings =~= warnings + Seq::<WarningView>::empty());
        assert(index_remove_document(index, texts.drop_last(), doc, fields, documents) == (
            index,
            Seq::<WarningView>::empty(),
        ));
        assert(index_remove_document(index, texts, doc, fields, documents) == (
            after,
            Seq::<WarningView>::empty() + warnings,
        ));
        assert(index_remove_document(after, texts.skip(1), doc, fields, documents) == (
            after,
            Seq::<WarningView>::empty(),
        ));
    } else {
        let before = texts.drop_last();
        lemma_remove_document_front(index, before, doc, fields, documents);
        assert(before[0] == texts[0]);
        assert(texts.skip(1).drop_last() =~= before.skip(1));
        assert(texts.skip(1).last() == texts.last());
        let (b, w) = index_remove_document(after, before.skip(1), doc, fields, documents);
        let (c, m) = index_remove_terms(
            b,
            text_terms(texts.last().1),
            texts.last().0,
            doc,
            fields,
            documents,
        );
        assert((warnings + w) + m =~= warnings + (w + m));
        assert(index_remove_document(index, before, doc, fields, documents) == (b, warnings + w));
        assert(index_remove_document(index, texts, doc, fields, documents) == (c, (warnings + w) + m));
        assert(index_remove_document(after, texts.skip(1), doc, fields, documents) == (c, w + m));
    }
}

/// Taking away the field texts of a document just after adding them, for a
/// document the index does not have, gives back the index as it was, with
/// no warning.
pub proof fn lemma_remove_undoes_add(
    index: Map<Seq<char>, Postings>,
    texts: Seq<(u32, Seq<char>)>,
    doc: u32,
    fields: Seq<(Seq<char>, u32)>,
    documents: Seq<(u32, Seq<char>)>,
)
    requires
        index_unique(index),
        index_compact(index),
        forall|t: Seq<char>, f: u32|
            index.contains_key(t) ==> !#[trigger] posting_has(index[t], f, doc),
        forall|i: int, j: int|
            0 <= i < texts.len() && 0 <= j < texts.len() && i != j ==> (#[trigger] texts[i]).0
                != (#[trigger] texts[j]).0,
        forall|i: int| 0 <= i < texts.len() ==> text_terms((#[trigger] texts[i]).1).len() + 1 < u32::MAX,
    ensures
        index_remove_document(index_add_document(index, texts, doc), texts, doc, fields, documents)
            == (index, Seq::<WarningView>::empty()),
    decreases texts.len(),
{
    if texts.len() == 0 {
    } else {
        let field = texts[0].0;
        let terms = text_terms(texts[0].1);
        let rest = texts.skip(1);
        let counts = |t: Seq<char>| occurrences(terms, t);
        assert forall|t: Seq<char>| #[trigger] index.contains_key(t) implies !posting_has(
            index[t],
            field,
            doc,
        ) by {
            assert(!posting_has(index[t], field, doc));
        }
        lemma_add_terms_extra(index, terms, field, doc);
        let first = index_add_terms(index, terms, field, doc);
        assert forall|i: int| 0 <= i < rest.len() implies (#[trigger] rest[i]).0 != field by {
            assert(rest[i] == texts[i + 1]);
        }
        lemma_add_document_other(first, index, rest, doc, field, counts);
        let with = index_add_document(first, rest, doc);
        let without = index_add_document(index, rest, doc);
        lemma_add_document_keeps(index, rest, doc);
        lemma_add_document_front(index, texts, doc);
        lemma_remove_document_front(with, texts, doc, fields, documents);
        lemma_remove_terms_back(with, without, terms, field, doc, fields, documents);
        assert forall|i: int, j: int|
            0 <= i < rest.len() && 0 <= j < rest.len() && i != j implies (#[trigger] rest[i]).0
            != (#[trigger] rest[j]).0 by {
            assert(rest[i] == texts[i + 1] && rest[j] == texts[j + 1]);
        }
        assert forall|i: int| 0 <= i < rest.len() implies text_terms((#[trigger] rest[i]).1).len()
            + 1 < u32::MAX by {
            assert(rest[i] == texts[i + 1]);
        }
        lemma_remove_undoes_add(index, rest, doc, fields, documents);
        assert(Seq::<WarningView>::empty() + Seq::<WarningView>::empty() =~= Seq::<
            WarningView,
        >::empty());
    }
}

/// A field text taken from one of the first `count` fields that has text,
/// with that field's ID.
pub open spec fn from_field(
    entry: (u32, Seq<char>),
    ids: Seq<(Seq<char>, u32)>,
    fields: Seq<Seq<char>>,
    texts: Seq<Option<String>>,
    count: int,
) -> bool {
    exists|i: int|
        0 <= i < count && (#[trigger] texts[i]) is Some && entry == (
            assoc_get(ids, fields[i])->Some_0,
            texts[i]->Some_0@,
        )
}

/// Each field text comes from a field that has text, with that field's ID.
proof fn lemma_field_texts_from(
    ids: Seq<(Seq<char>, u32)>,
    fields: Seq<Seq<char>>,
    texts: Seq<Option<String>>,
    count: int,
)
    requires
        0 <= count <= texts.len(),
    ensures
        forall|k: int|
            0 <= k < field_texts(ids, fields, texts, count).len() ==> from_field(
                #[trigger] field_texts(ids, fields, texts, count)[k],
                ids,
                fields,
                texts,
                count,
            ),
    decreases count,
{
    if count > 0 {
        lemma_field_texts_from(ids, fields, texts, count - 1);
        let before = field_texts(ids, fields, texts, count - 1);
        let now = field_texts(ids, fields, texts, count);
        assert forall|k: int| 0 <= k < now.len() implies from_field(
            #[trigger] now[k],
            ids,
            fields,
            texts,
            count,
        ) by {
            if k < before.len() {
                assert(now[k] == before[k]);
                assert(from_field(before[k], ids, fields, texts, count - 1));
                let i = choose|i: int|
                    0 <= i < count - 1 && (#[trigger] texts[i]) is Some && before[k] == (
                        assoc_get(ids, fields[i])->Some_0,
                        texts[i]->Some_0@,
                    );
                assert(texts[i] is Some);
            } else {
                let i = count - 1;
                match texts[i] {
                    Some(text) => {
                        assert(now == before.push((assoc_get(ids, fields[i])->Some_0, text@)));
                        assert(now[k] == (assoc_get(ids, fields[i])->Some_0, texts[i]->Some_0@));
                        assert(texts[i] is Some);
                    },
                    None => {
                        assert(now == before);
                    },
                }
            }
        }
    }
}

/// With distinct field names, each with an ID of its own, the field texts
/// have distinct IDs.
pub(crate) proof fn lemma_field_texts_distinct(
    ids: Seq<(Seq<char>, u32)>,
    fields: Seq<Seq<char>>,
    texts: Seq<Option<String>>,
    count: int,
)
    requires
        0 <= count <= texts.len(),
        count <= fields.len(),
        distinct_names(fields),
        unique_keys(ids),
        forall|a: int, b: int|
            0 <= a < ids.len() && 0 <= b < ids.len() && a != b ==> #[trigger] ids[a].1
                != #[trigger] ids[b].1,
        forall|i: int|
            0 <= i < count && (#[trigger] texts[i]) is Some ==> has_key(ids, fields[i]),
    ensures
        forall|a: int, b: int|
            0 <= a < field_texts(ids, fields, texts, count).len() && 0 <= b < field_texts(
                ids,
                fields,
                texts,
                count,
            ).len() && a != b ==> (#[trigger] field_texts(ids, fields, texts, count)[a]).0
                != (#[trigger] field_texts(ids, fields, texts, count)[b]).0,
    decreases count,
{
    if count > 0 {
        lemma_field_texts_distinct(ids, fields, texts, count - 1);
        lemma_field_texts_from(ids, fields, texts, count - 1);
        let before = field_texts(ids, fields, texts, count - 1);
        let now = field_texts(ids, fields, texts, count);
        let last = count - 1;
        assert forall|a: int, b: int|
            0 <= a < now.len() && 0 <= b < now.len() && a != b implies (#[trigger] now[a]).0
            != (#[trigger] now[b]).0 by {
            if a < before.len() && b < before.len() {
                assert(now[a] == before[a] && now[b] == before[b]);
            } else {
                let k = if a < before.len() { a } else { b };
                assert(k < before.len());
                assert(now[k] == before[k]);
                assert(from_field(before[k], ids, fields, texts, count - 1));
                let i = choose|i: int|
                    0 <= i < count - 1 && (#[trigger] texts[i]) is Some && before[k] == (
                        assoc_get(ids, fields[i])->Some_0,
                        texts[i]->Some_0@,
                    );
                assert(texts[last] is Some);
                assert(fields[i] != fields[last]);
                assert(has_key(ids, fields[i]) && has_key(ids, fields[last]));
                let pi = index_of(ids, fields[i]);
                let pl = index_of(ids, fields[last]);
                assert(ids[pi].0 == fields[i] && ids[pl].0 == fields[last]);
                assert(pi != pl);
                assert(ids[pi].1 != ids[pl].1);
                let other = if a < before.len() { b } else { a };
                assert(now[other].0 == assoc_get(ids, fields[last])->Some_0);
            }
        }
    }
}

/// Every field text has as many terms as its field's text.
pub(crate) proof fn lemma_field_texts_terms(
    ids: Seq<(Seq<char>, u32)>,
    fields: Seq<Seq<char>>,
    texts: Seq<Option<String>>,
    count: int,
)
    requires
        0 <= count <= texts.len(),
        forall|i: int|
            0 <= i < texts.len() && (#[trigger] texts[i]) is Some ==> text_terms(
                texts[i]->Some_0@,
            ).len() + 1 < u32::MAX,
    ensures
        forall|k: int|
            0 <= k < field_texts(ids, fields, texts, count).len() ==> text_terms(
                (#[trigger] field_texts(ids, fields, texts, count)[k]).1,
            ).len() + 1 < u32::MAX,
{
    lemma_field_texts_from(ids, fields, texts, count);
    let now = field_texts(ids, fields, texts, count);
    assert forall|k: int| 0 <= k < now.len() implies text_terms((#[trigger] now[k]).1).len() + 1
        < u32::MAX by {
        assert(from_field(now[k], ids, fields, texts, count));
        let i = choose|i: int|
            0 <= i < count && (#[trigger] texts[i]) is Some && now[k] == (
                assoc_get(ids, fields[i])->Some_0,
                texts[i]->Some_0@,
            );
        assert(texts[i] is Some);
    }
}

/// Recording the lengths of a document that has none adds one entry for it
/// at the end, if it has a field text.
pub(crate) proof fn lemma_lengths_add_fresh(
    table: Seq<(u32, Seq<Option<u32>>)>,
    texts: Seq<(u32, Seq<char>)>,
    doc: u32,
)
    requires
        !has_key(table, doc),
    ensures
        assoc_remove(lengths_add_document(table, texts, doc), doc) == table,
        lengths_add_document(table, texts, doc) == table || (has_key(
            lengths_add_document(table, texts, doc),
            doc,
        ) && lengths_add_document(table, texts, doc).drop_last() == table
            && lengths_add_document(table, texts, doc).last().0 == doc),
    decreases texts.len(),
{
    let now = lengths_add_document(table, texts, doc);
    if texts.len() > 0 {
        lemma_lengths_add_fresh(table, texts.drop_last(), doc);
        let before = lengths_add_document(table, texts.drop_last(), doc);
        if before == table {
            assert(now.drop_last() =~= table);
            assert(now[table.len() as int].0 == doc);
        } else {
            let n = table.len() as int;
            assert(before[n].0 == doc);
            assert(before.drop_last() =~= table);
            assert forall|i: int| 0 <= i < n implies #[trigger] before[i].0 != doc by {
                assert(before[i] == table[i]);
            }
            assert(index_of(before, doc) == n);
            assert(now.drop_last() =~= table);
            assert(now[n].0 == doc);
        }
        assert(index_of(now, doc) == table.len());
        assert(assoc_remove(now, doc) =~= table);
    }
}

/// Every document of the postings is below `bound`.
pub open spec fn postings_below(data: Postings, bound: int) -> bool {
    forall|i: int, j: int|
        0 <= i < data.len() && 0 <= j < data[i].1.len() ==> ((#[trigger] data[i].1[j]).0 as int) < bound
}

/// Every document of the index is below `bound`.
pub open spec fn index_below(index: Map<Seq<char>, Postings>, bound: int) -> bool {
    forall|t: Seq<char>| #[trigger] index.contains_key(t) ==> postings_below(index[t], bound)
}

/// An occurrence of a document below the bound keeps the postings below it.
proof fn lemma_posting_add_below(data: Postings, field: u32, doc: u32, bound: int)
    requires
        postings_unique(data),
        postings_below(data, bound),
        doc < bound,
    ensures
        postings_below(posting_add(data, field, doc), bound),
{
    let docs = match assoc_get(data, field) {
        Some(docs) => docs,
        None => Seq::empty(),
    };
    let freq: u32 = match assoc_get(docs, doc) {
        Some(freq) => freq,
        None => 0,
    };
    let v = (if freq == u32::MAX { 0 } else { freq + 1 }) as u32;
    let nd = assoc_set(docs, doc, v);
    let p = if has_key(data, field) { index_of(data, field) } else { data.len() as int };
    if has_key(data, field) {
        assert(data[p].0 == field);
    }
    let r = assoc_set(data, field, nd);
    assert(r[p] == (field, nd));
    let q = if has_key(docs, doc) { index_of(docs, doc) } else { docs.len() as int };
    if has_key(docs, doc) {
        assert(docs[q].0 == doc);
    }
    assert forall|i: int, j: int| 0 <= i < r.len() && 0 <= j < r[i].1.len() implies ((
    #[trigger] r[i].1[j]).0 as int) < bound by {
        if i == p {
            if j != q {
                assert(nd[j] == docs[j]);
                if has_key(data, field) {
                    assert(docs[j] == data[p].1[j]);
                }
            }
        } else {
            assert(r[i] == data[i]);
        }
    }
}

/// Taking an occurrence away keeps the postings below the bound, and
/// compact ones compact unless they become empty.
proof fn lemma_posting_remove_keeps(data: Postings, field: u32, doc: u32, bound: int)
    requires
        postings_unique(data),
        posting_has(data, field, doc),
    ensures
        postings_below(data, bound) ==> postings_below(posting_remove(data, field, doc), bound),
        postings_compact(data) && posting_remove(data, field, doc).len() > 0 ==> postings_compact(
            posting_remove(data, field, doc),
        ),
{
    let docs = assoc_get(data, field)->Some_0;
    let freq = assoc_get(docs, doc)->Some_0;
    let p = index_of(data, field);
    assert(data[p].0 == field);
    assert(unique_keys(docs));
    let q = index_of(docs, doc);
    assert(docs[q].0 == doc);
    let r = posting_remove(data, field, doc);
    if freq <= 1 && docs.len() <= 1 {
        assert forall|i: int| 0 <= i < r.len() implies #[trigger] r[i] == data[if i < p {
            i
        } else {
            i + 1
        }] by {}
    } else {
        let nd = if freq <= 1 { assoc_remove(docs, doc) } else { assoc_set(docs, doc, (freq - 1) as u32) };
        assert(r == assoc_set(data, field, nd));
        assert(r == data.update(p, (field, nd)));
        assert forall|j: int| 0 <= j < nd.len() implies exists|k: int|
            0 <= k < docs.len() && #[trigger] nd[j].0 == docs[k].0 by {
            if freq <= 1 {
                let k = if j < q { j } else { j + 1 };
                assert(nd[j] == docs[k]);
            } else {
                assert(nd[j].0 == docs[j].0);
            }
        }
        assert(nd.len() > 0);
    }
    if postings_below(data, bound) {
        assert forall|i: int, j: int| 0 <= i < r.len() && 0 <= j < r[i].1.len() implies ((
        #[trigger] r[i].1[j]).0 as int) < bound by {
            if freq <= 1 && docs.len() <= 1 {
                let fi = if i < p { i } else { i + 1 };
                assert(r[i] == data[fi]);
            } else if i == p {
                let nd = r[p].1;
                let k = choose|k: int| 0 <= k < docs.len() && #[trigger] nd[j].0 == docs[k].0;
                assert(docs[k] == data[p].1[k]);
            } else {
                assert(r[i] == data[i]);
            }
        }
    }
    if postings_compact(data) && r.len() > 0 {
        assert forall|i: int| 0 <= i < r.len() implies (#[trigger] r[i]).1.len() > 0 by {
            if freq <= 1 && docs.len() <= 1 {
                let fi = if i < p { i } else { i + 1 };
                assert(r[i] == data[fi]);
            } else if i != p {
                assert(r[i] == data[i]);
            }
        }
    }
}

/// Adding an occurrence of a document below the bound keeps the index below
/// it.
proof fn lemma_index_add_below(index: Map<Seq<char>, Postings>, term: Seq<char>, field: u32, doc: u32, bound: int)
    requires
        index_unique(index),
        index_below(index, bound),
        doc < bound,
    ensures
        index_below(index_add(index, term, field, doc), bound),
{
    let data = postings_or_empty(index, term);
    lemma_posting_add_below(data, field, doc, bound);
}

/// Taking an occurrence away keeps the index unique, below the bound and
/// compact.
pub(crate) proof fn lemma_index_remove_keeps(
    index: Map<Seq<char>, Postings>,
    term: Seq<char>,
    field: u32,
    doc: u32,
    bound: int,
)
    requires
        index_unique(index),
    ensures
        index_unique(index_remove(index, term, field, doc)),
        index_below(index, bound) ==> index_below(index_remove(index, term, field, doc), bound),
        index_compact(index) ==> index_compact(index_remove(index, term, field, doc)),
{
    if index.contains_key(term) && posting_has(index[term], field, doc) {
        lemma_posting_remove_unique(index[term], field, doc);
        lemma_posting_remove_keeps(index[term], field, doc, bound);
    }
}

/// Adding field texts of a document below the bound keeps the index below
/// it.
pub(crate) proof fn lemma_add_document_below(
    index: Map<Seq<char>, Postings>,
    texts: Seq<(u32, Seq<char>)>,
    doc: u32,
    bound: int,
)
    requires
        index_unique(index),
        index_below(index, bound),
        doc < bound,
    ensures
        index_below(index_add_document(index, texts, doc), bound),
    decreases texts.len(),
{
    if texts.len() > 0 {
        lemma_add_document_below(index, texts.drop_last(), doc, bound);
        lemma_add_document_keeps(index, texts.drop_last(), doc);
        lemma_add_terms_below(
            index_add_document(index, texts.drop_last(), doc),
            text_terms(texts.last().1),
            texts.last().0,
            doc,
            bound,
        );
    }
}

proof fn lemma_add_terms_below(
    index: Map<Seq<char>, Postings>,
    terms: Seq<Seq<char>>,
    field: u32,
    doc: u32,
    bound: int,
)
    requires
        index_unique(index),
        index_below(index, bound),
        doc < bound,
    ensures
        index_below(index_add_terms(index, terms, field, doc), bound),
    decreases terms.len(),
{
    if terms.len() > 0 {
        lemma_add_terms_below(index, terms.drop_last(), field, doc, bound);
        lemma_add_terms_keeps(index, terms.drop_last(), field, doc);
        lemma_index_add_below(
            index_add_terms(index, terms.drop_last(), field, doc),
            terms.last(),
            field,
            doc,
            bound,
        );
    }
}

/// Taking terms away keeps the index unique, below the bound and compact.
proof fn lemma_remove_terms_keeps(
    index: Map<Seq<char>, Postings>,
    terms: Seq<Seq<char>>,
    field: u32,
    doc: u32,
    fields: Seq<(Seq<char>, u32)>,
    documents: Seq<(u32, Seq<char>)>,
    bound: int,
)
    requires
        index_unique(index),
    ensures
        index_unique(index_remove_terms(index, terms, field, doc, fields, documents).0),
        index_below(index, bound) ==> index_below(
            index_remove_terms(index, terms, field, doc, fields, documents).0,
            bound,
        ),
        index_compact(index) ==> index_compact(
            index_remove_terms(index, terms, field, doc, fields, documents).0,
        ),
    decreases terms.len(),
{
    if terms.len() > 0 {
        lemma_remove_terms_keeps(index, terms.drop_last(), field, doc, fields, documents, bound);
        lemma_index_remove_keeps(
            index_remove_terms(index, terms.drop_last(), field, doc, fields, documents).0,
            terms.last(),
            field,
            doc,
            bound,
        );
    }
}

/// Taking field texts away keeps the index unique, below the bound and
/// compact.
pub(crate) proof fn lemma_remove_document_keeps(
    index: Map<Seq<char>, Postings>,
    texts: Seq<(u32, Seq<char>)>,
    doc: u32,
    fields: Seq<(Seq<char>, u32)>,
    documents: Seq<(u32, Seq<char>)>,
    bound: int,
)
    requires
        index_unique(index),
    ensures
        index_unique(index_remove_document(index, texts, doc, fields, documents).0),
        index_below(index, bound) ==> index_below(
            index_remove_document(index, texts, doc, fields, documents).0,
            bound,
        ),
        index_compact(index) ==> index_compact(
            index_remove_document(index, texts, doc, fields, documents).0,
        ),
    decreases texts.len(),
{
    if texts.len() > 0 {
        lemma_remove_document_keeps(index, texts.drop_last(), doc, fields, documents, bound);
        lemma_remove_terms_keeps(
            index_remove_document(index, texts.drop_last(), doc, fields, documents).0,
            text_terms(texts.last().1),
            texts.last().0,
            doc,
            fields,
            documents,
            bound,
        );
    }
}

/// Taking references away keeps the index unique, below the bound and
/// compact.
pub(crate) proof fn lemma_remove_refs_keeps(
    index: Map<Seq<char>, Postings>,
    term: Seq<char>,
    refs: Seq<(u32, u32)>,
    fields: Seq<(Seq<char>, u32)>,
    documents: Seq<(u32, Seq<char>)>,
    bound: int,
)
    requires
        index_unique(index),
    ensures
        index_unique(index_remove_refs(index, term, refs, fields, documents).0),
        index_below(index, bound) ==> index_below(
            index_remove_refs(index, term, refs, fields, documents).0,
            bound,
        ),
        index_compact(index) ==> index_compact(
            index_remove_refs(index, term, refs, fields, documents).0,
        ),
    decreases refs.len(),
{
    if refs.len() > 0 {
        lemma_remove_refs_keeps(index, term, refs.drop_last(), fields, documents, bound);
        lemma_index_remove_keeps(
            index_remove_refs(index, term, refs.drop_last(), fields, documents).0,
            term,
            refs.last().0,
            refs.last().1,
            bound,
        );
    }
}

/// The documents kept from a posting list are below the bound if all were.
proof fn lemma_live_docs_below(docs: Seq<(u32, u32)>, documents: Seq<(u32, Seq<char>)>, bound: int)
    requires
        forall|k: int| 0 <= k < docs.len() ==> ((#[trigger] docs[k]).0 as int) < bound,
    ensures
        forall|k: int|
            0 <= k < live_docs(docs, documents).len() ==> ((#[trigger] live_docs(docs, documents)[k]).0 as int)
                < bound,
    decreases docs.len(),
{
    if docs.len() > 0 {
        assert forall|k: int| 0 <= k < docs.drop_last().len() implies ((
        #[trigger] docs.drop_last()[k]).0 as int) < bound by {
            assert(docs.drop_last()[k] == docs[k]);
        }
        lemma_live_docs_below(docs.drop_last(), documents, bound);
        let before = live_docs(docs.drop_last(), documents);
        let now = live_docs(docs, documents);
        assert forall|k: int| 0 <= k < now.len() implies ((#[trigger] now[k]).0 as int) < bound by {
            if k < before.len() {
                assert(now[k] == before[k]);
            } else {
                assert(now[k] == docs[docs.len() - 1]);
            }
        }
    }
}

/// The postings kept by a vacuum are below the bound if all were, and
/// compact postings leave no field without documents.
proof fn lemma_live_postings_keeps(data: Postings, documents: Seq<(u32, Seq<char>)>, bound: int)
    ensures
        postings_below(data, bound) ==> postings_below(live_postings(data, documents), bound),
        postings_compact(data) ==> forall|i: int|
            0 <= i < live_postings(data, documents).len() ==> (#[trigger] live_postings(
                data,
                documents,
            )[i]).1.len() > 0,
    decreases data.len(),
{
    if data.len() > 0 {
        let before = live_postings(data.drop_last(), documents);
        let now = live_postings(data, documents);
        let last = data.len() - 1;
        if postings_below(data, bound) {
            assert(postings_below(data.drop_last(), bound)) by {
                assert forall|i: int, j: int|
                    0 <= i < data.drop_last().len() && 0 <= j < data.drop_last()[i].1.len() implies ((
                    #[trigger] data.drop_last()[i].1[j]).0 as int) < bound by {
                    assert(data.drop_last()[i] == data[i]);
                    assert(data[i].1[j] == data.drop_last()[i].1[j]);
                }
            }
            assert forall|k: int| 0 <= k < data[last].1.len() implies ((#[trigger] data[last].1[k]).0 as int)
                < bound by {
                assert(((data[last].1[k]).0 as int) < bound);
            }
            lemma_live_docs_below(data[last].1, documents, bound);
        }
        if postings_compact(data) {
            if data.drop_last().len() > 0 {
                assert(postings_compact(data.drop_last())) by {
                    assert forall|i: int| 0 <= i < data.drop_last().len() implies (
                    #[trigger] data.drop_last()[i]).1.len() > 0 by {
                        assert(data.drop_last()[i] == data[i]);
                    }
                }
            }
        }
        lemma_live_postings_keeps(data.drop_last(), documents, bound);
        assert(data.last() == data[last]);
        if postings_below(data, bound) {
            assert forall|i: int, j: int| 0 <= i < now.len() && 0 <= j < now[i].1.len() implies ((
            #[trigger] now[i].1[j]).0 as int) < bound by {
                if i < before.len() {
                    assert(now[i] == before[i]);
                    assert(before[i].1[j] == now[i].1[j]);
                } else {
                    assert(now[i].1 == live_docs(data[last].1, documents));
                    assert(now[i].1[j] == live_docs(data[last].1, documents)[j]);
                }
            }
        }
        if postings_compact(data) {
            assert forall|i: int| 0 <= i < now.len() implies (#[trigger] now[i]).1.len() > 0 by {
                if i < before.len() {
                    assert(now[i] == before[i]);
                } else {
                    assert(data[last].1.len() > 0);
                }
            }
        }
    }
}

/// A vacuum keeps the index below the bound and compact.
pub(crate) proof fn lemma_vacuumed_keeps(
    index: Map<Seq<char>, Postings>,
    documents: Seq<(u32, Seq<char>)>,
    bound: int,
)
    ensures
        index_below(index, bound) ==> index_below(vacuumed(index, documents), bound),
        index_compact(index) ==> index_compact(vacuumed(index, documents)),
{
    let v = vacuumed(index, documents);
    assert forall|t: Seq<char>| #[trigger] v.contains_key(t) implies (index_below(index, bound)
        ==> postings_below(v[t], bound)) && (index_compact(index) ==> postings_compact(v[t])) by {
        lemma_live_postings_keeps(index[t], documents, bound);
    }
}

} // verus!

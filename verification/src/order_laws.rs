//! The order in which documents are indexed does not matter, and neither
//! does the way in which they are shared out among workers.

use vstd::prelude::*;
use crate::index_laws::lemma_index_document_names;
use crate::indexer::{empty_index, index_all, index_document, index_field, index_written, lemma_files_determined, merge_index, padded, record_all, DocModel, IndexModel, IndexOutput};
use crate::lex::bytes_of;
use crate::postings::{count_in, entry_of, merge, merge_entries, record, sat_add};
use crate::tokenizer::cleaned_words;

verus! {

/// The index after one entry of the input.
pub open spec fn doc_step(m: IndexModel, keys: Seq<Seq<u8>>, doc: Option<DocModel>) -> IndexModel {
    match doc {
        Some(d) => index_document(m, keys, bytes_of(padded(d.docid)), d.fields),
        None => m,
    }
}

/// The two entries do not stand for documents with the same padded
/// identifier.
pub open spec fn differ(a: Option<DocModel>, b: Option<DocModel>) -> bool {
    a is Some && b is Some ==> bytes_of(padded(a->0.docid)) != bytes_of(padded(b->0.docid))
}

/// No two of the documents have the same padded identifier.
pub open spec fn distinct_ids(docs: Seq<Option<DocModel>>) -> bool {
    forall|i: int, j: int| 0 <= i < j < docs.len() ==> differ(#[trigger] docs[i], #[trigger] docs[j])
}

/// Every field named by `keys` is a field of the index, with postings and
/// lengths.
pub open spec fn has_fields(m: IndexModel, keys: Seq<Seq<u8>>) -> bool {
    forall|i: int|
        0 <= i < keys.len() ==> m.postings.contains_key(#[trigger] keys[i]) && m.lengths.contains_key(
            keys[i],
        )
}

/// Two occurrences are recorded to the same effect in either order.
pub proof fn lemma_record_commutes(
    p: Map<Seq<u8>, Map<Seq<u8>, u64>>,
    t1: Seq<u8>,
    d1: Seq<u8>,
    t2: Seq<u8>,
    d2: Seq<u8>,
)
    ensures
        record(record(p, t1, d1), t2, d2) == record(record(p, t2, d2), t1, d1),
{
    let a = record(record(p, t1, d1), t2, d2);
    let b = record(record(p, t2, d2), t1, d1);
    assert forall|t: Seq<u8>| a.contains_key(t) implies #[trigger] a[t] =~= b[t] by {}
    assert(a =~= b);
}

proof fn lemma_record_through(
    p: Map<Seq<u8>, Map<Seq<u8>, u64>>,
    words: Seq<Seq<char>>,
    d: Seq<u8>,
    t2: Seq<u8>,
    d2: Seq<u8>,
)
    ensures
        record(record_all(p, words, d), t2, d2) == record_all(record(p, t2, d2), words, d),
    decreases words.len(),
{
    if words.len() > 0 {
        let front = words.drop_last();
        lemma_record_commutes(record_all(p, front, d), bytes_of(words.last()), d, t2, d2);
        lemma_record_through(p, front, d, t2, d2);
    }
}

/// The words of two texts are recorded to the same effect in either order.
pub proof fn lemma_record_all_commutes(
    p: Map<Seq<u8>, Map<Seq<u8>, u64>>,
    words1: Seq<Seq<char>>,
    d1: Seq<u8>,
    words2: Seq<Seq<char>>,
    d2: Seq<u8>,
)
    ensures
        record_all(record_all(p, words1, d1), words2, d2) == record_all(
            record_all(p, words2, d2),
            words1,
            d1,
        ),
    decreases words2.len(),
{
    if words2.len() > 0 {
        let front = words2.drop_last();
        lemma_record_all_commutes(p, words1, d1, front, d2);
        lemma_record_through(record_all(p, front, d2), words1, d1, bytes_of(words2.last()), d2);
    }
}

/// The index after one field of a document, if the document has a text for
/// it.
pub open spec fn field_step(
    m: IndexModel,
    k: Seq<u8>,
    d: Seq<u8>,
    fields: Map<Seq<u8>, Seq<char>>,
) -> IndexModel {
    if fields.contains_key(k) {
        index_field(m, k, d, fields[k])
    } else {
        m
    }
}

proof fn lemma_field_step_commutes(
    m: IndexModel,
    k1: Seq<u8>,
    d1: Seq<u8>,
    f1: Map<Seq<u8>, Seq<char>>,
    k2: Seq<u8>,
    d2: Seq<u8>,
    f2: Map<Seq<u8>, Seq<char>>,
)
    requires
        d1 != d2,
    ensures
        field_step(field_step(m, k1, d1, f1), k2, d2, f2) == field_step(
            field_step(m, k2, d2, f2),
            k1,
            d1,
            f1,
        ),
{
    let a = field_step(field_step(m, k1, d1, f1), k2, d2, f2);
    let b = field_step(field_step(m, k2, d2, f2), k1, d1, f1);
    if f1.contains_key(k1) && f2.contains_key(k2) {
        if k1 == k2 {
            lemma_record_all_commutes(m.postings[k1], cleaned_words(f1[k1]), d1, cleaned_words(f2[k2]), d2);
            assert(a.lengths[k1] =~= b.lengths[k1]);
        }
        assert(a.postings =~= b.postings);
        assert(a.lengths =~= b.lengths);
    }
}

proof fn lemma_field_step_through(
    m: IndexModel,
    keys: Seq<Seq<u8>>,
    d: Seq<u8>,
    fields: Map<Seq<u8>, Seq<char>>,
    k2: Seq<u8>,
    d2: Seq<u8>,
    f2: Map<Seq<u8>, Seq<char>>,
)
    requires
        d != d2,
    ensures
        field_step(index_document(m, keys, d, fields), k2, d2, f2) == index_document(
            field_step(m, k2, d2, f2),
            keys,
            d,
            fields,
        ),
    decreases keys.len(),
{
    if keys.len() > 0 {
        let front = keys.drop_last();
        lemma_field_step_commutes(index_document(m, front, d, fields), keys.last(), d, fields, k2, d2, f2);
        lemma_field_step_through(m, front, d, fields, k2, d2, f2);
    }
}

/// Two documents with different identifiers are indexed to the same effect
/// in either order.
pub proof fn lemma_index_document_commutes(
    m: IndexModel,
    keys1: Seq<Seq<u8>>,
    d1: Seq<u8>,
    f1: Map<Seq<u8>, Seq<char>>,
    keys2: Seq<Seq<u8>>,
    d2: Seq<u8>,
    f2: Map<Seq<u8>, Seq<char>>,
)
    requires
        d1 != d2,
    ensures
        index_document(index_document(m, keys1, d1, f1), keys2, d2, f2) == index_document(
            index_document(m, keys2, d2, f2),
            keys1,
            d1,
            f1,
        ),
    decreases keys2.len(),
{
    if keys2.len() > 0 {
        let front = keys2.drop_last();
        lemma_index_document_commutes(m, keys1, d1, f1, front, d2, f2);
        lemma_field_step_through(index_document(m, front, d2, f2), keys1, d1, f1, keys2.last(), d2, f2);
    }
}

proof fn lemma_doc_step_commutes(m: IndexModel, keys: Seq<Seq<u8>>, a: Option<DocModel>, b: Option<DocModel>)
    requires
        differ(a, b),
    ensures
        doc_step(doc_step(m, keys, a), keys, b) == doc_step(doc_step(m, keys, b), keys, a),
{
    if a is Some && b is Some {
        lemma_index_document_commutes(
            m,
            keys,
            bytes_of(padded(a->0.docid)),
            a->0.fields,
            keys,
            bytes_of(padded(b->0.docid)),
            b->0.fields,
        );
    }
}

/// A document that comes into the input at any place has the effect that
/// it has at the end, as long as its identifier differs from those of the
/// documents after it.
pub proof fn lemma_index_all_insert(
    m: IndexModel,
    keys: Seq<Seq<u8>>,
    docs: Seq<Option<DocModel>>,
    at: int,
    x: Option<DocModel>,
)
    requires
        0 <= at <= docs.len(),
        forall|i: int| at <= i < docs.len() ==> differ(x, #[trigger] docs[i]),
    ensures
        index_all(m, keys, docs.insert(at, x)) == doc_step(index_all(m, keys, docs), keys, x),
    decreases docs.len() - at,
{
    let more = docs.insert(at, x);
    if at == docs.len() {
        assert(more.drop_last() =~= docs);
        assert(more.last() == x);
    } else {
        let front = docs.drop_last();
        let last = docs.last();
        assert(more.drop_last() =~= front.insert(at, x));
        assert(more.last() == last);
        assert forall|i: int| at <= i < front.len() implies differ(x, #[trigger] front[i]) by {
            assert(front[i] == docs[i]);
        }
        lemma_index_all_insert(m, keys, front, at, x);
        assert(differ(x, docs[docs.len() - 1]));
        lemma_doc_step_commutes(index_all(m, keys, front), keys, x, last);
    }
}

/// The index does not depend on the order of the documents: two inputs
/// that hold the same documents, each as often as the other, give the same
/// postings and lengths, as long as no two documents have the same padded
/// identifier.
pub proof fn lemma_index_all_permutation(
    m: IndexModel,
    keys: Seq<Seq<u8>>,
    docs1: Seq<Option<DocModel>>,
    docs2: Seq<Option<DocModel>>,
)
    requires
        docs1.to_multiset() == docs2.to_multiset(),
        distinct_ids(docs1),
    ensures
        index_all(m, keys, docs1) == index_all(m, keys, docs2),
    decreases docs1.len(),
{
    docs1.to_multiset_ensures();
    docs2.to_multiset_ensures();
    if docs1.len() == 0 {
        assert(docs2.len() == 0);
        assert(docs1 =~= docs2);
    } else {
        let front = docs1.drop_last();
        let x = docs1.last();
        let n = docs1.len() - 1;
        front.to_multiset_ensures();
        assert(docs1 =~= front.push(x));
        assert(docs1.to_multiset() =~= front.to_multiset().insert(x));
        assert(docs1[n] == x);
        assert(docs1.contains(x));
        assert(docs1.to_multiset().count(x) > 0);
        assert(docs2.to_multiset().count(x) > 0);
        assert(docs2.contains(x));
        let j = docs2.index_of(x);
        let rest = docs2.remove(j);
        rest.to_multiset_ensures();
        assert(rest.to_multiset() =~= docs2.to_multiset().remove(x));
        assert(rest.to_multiset() =~= front.to_multiset());
        assert forall|a: int, b: int| 0 <= a < b < front.len() implies differ(
            #[trigger] front[a],
            #[trigger] front[b],
        ) by {
            assert(front[a] == docs1[a] && front[b] == docs1[b]);
        }
        lemma_index_all_permutation(m, keys, front, rest);
        assert forall|i: int| j <= i < rest.len() implies differ(x, #[trigger] rest[i]) by {
            assert(rest.contains(rest[i]));
            assert(rest.to_multiset().count(rest[i]) > 0);
            assert(front.to_multiset().count(rest[i]) > 0);
            assert(front.contains(rest[i]));
            let a = front.index_of(rest[i]);
            assert(differ(docs1[a], docs1[n]));
        }
        lemma_index_all_insert(m, keys, rest, j, x);
        assert(rest.insert(j, x) =~= docs2);
    }
}

/// Merging with postings that hold nothing changes nothing.
pub proof fn lemma_merge_empty(p: Map<Seq<u8>, Map<Seq<u8>, u64>>)
    ensures
        merge(p, Map::empty()) == p,
{
    let m = merge(p, Map::empty());
    assert forall|t: Seq<u8>| m.contains_key(t) implies #[trigger] m[t] =~= p[t] by {}
    assert(m =~= p);
}

/// Merging postings is the same in either order.
pub proof fn lemma_merge_commutes(a: Map<Seq<u8>, Map<Seq<u8>, u64>>, b: Map<Seq<u8>, Map<Seq<u8>, u64>>)
    ensures
        merge(a, b) == merge(b, a),
{
    let x = merge(a, b);
    let y = merge(b, a);
    assert forall|t: Seq<u8>| x.contains_key(t) implies #[trigger] x[t] =~= y[t] by {}
    assert(x =~= y);
}

/// Merging postings in two steps is the same however the steps are
/// grouped.
pub proof fn lemma_merge_associates(
    a: Map<Seq<u8>, Map<Seq<u8>, u64>>,
    b: Map<Seq<u8>, Map<Seq<u8>, u64>>,
    c: Map<Seq<u8>, Map<Seq<u8>, u64>>,
)
    ensures
        merge(merge(a, b), c) == merge(a, merge(b, c)),
{
    let x = merge(merge(a, b), c);
    let y = merge(a, merge(b, c));
    assert forall|t: Seq<u8>| x.contains_key(t) implies #[trigger] x[t] =~= y[t] by {
        let ea = entry_of(a, t);
        let eb = entry_of(b, t);
        let ec = entry_of(c, t);
        assert(entry_of(merge(a, b), t) =~= merge_entries(ea, eb));
        assert(entry_of(merge(b, c), t) =~= merge_entries(eb, ec));
        assert forall|d: Seq<u8>| x[t].contains_key(d) implies x[t][d] == y[t][d] by {
            assert(count_in(merge_entries(ea, eb), d) == sat_add(count_in(ea, d), count_in(eb, d)));
            assert(count_in(merge_entries(eb, ec), d) == sat_add(count_in(eb, d), count_in(ec, d)));
        }
    }
    assert(x =~= y);
}

/// An occurrence recorded before a merge has the effect of one recorded
/// after it.
pub proof fn lemma_merge_record(
    a: Map<Seq<u8>, Map<Seq<u8>, u64>>,
    b: Map<Seq<u8>, Map<Seq<u8>, u64>>,
    t: Seq<u8>,
    d: Seq<u8>,
)
    ensures
        merge(a, record(b, t, d)) == record(merge(a, b), t, d),
{
    let x = merge(a, record(b, t, d));
    let y = record(merge(a, b), t, d);
    assert forall|s: Seq<u8>| x.contains_key(s) implies #[trigger] x[s] =~= y[s] by {
        if s == t {
            let ea = entry_of(a, t);
            let eb = entry_of(b, t);
            assert(entry_of(merge(a, b), t) =~= merge_entries(ea, eb));
            assert forall|e: Seq<u8>| x[s].contains_key(e) implies x[s][e] == y[s][e] by {
                assert(count_in(merge_entries(ea, eb), e) == sat_add(count_in(ea, e), count_in(eb, e)));
            }
        }
    }
    assert(x =~= y);
}

proof fn lemma_merge_record_all(
    a: Map<Seq<u8>, Map<Seq<u8>, u64>>,
    b: Map<Seq<u8>, Map<Seq<u8>, u64>>,
    words: Seq<Seq<char>>,
    d: Seq<u8>,
)
    ensures
        merge(a, record_all(b, words, d)) == record_all(merge(a, b), words, d),
    decreases words.len(),
{
    if words.len() > 0 {
        let front = words.drop_last();
        lemma_merge_record(a, record_all(b, front, d), bytes_of(words.last()), d);
        lemma_merge_record_all(a, b, front, d);
    }
}

proof fn lemma_merge_index_document(
    a: IndexModel,
    b: IndexModel,
    all: Seq<Seq<u8>>,
    keys: Seq<Seq<u8>>,
    d: Seq<u8>,
    fields: Map<Seq<u8>, Seq<char>>,
)
    requires
        has_fields(a, all),
        has_fields(b, all),
        forall|i: int| 0 <= i < keys.len() ==> all.contains(#[trigger] keys[i]),
    ensures
        merge_index(a, index_document(b, keys, d, fields)) == index_document(
            merge_index(a, b),
            keys,
            d,
            fields,
        ),
        has_fields(index_document(b, keys, d, fields), all),
    decreases keys.len(),
{
    if keys.len() > 0 {
        let front = keys.drop_last();
        let k = keys.last();
        assert forall|i: int| 0 <= i < front.len() implies all.contains(#[trigger] front[i]) by {
            assert(front[i] == keys[i]);
        }
        lemma_merge_index_document(a, b, all, front, d, fields);
        let before = index_document(b, front, d, fields);
        assert(keys[keys.len() - 1] == k);
        let at = all.index_of(k);
        assert(a.postings.contains_key(all[at]) && a.lengths.contains_key(all[at]));
        assert(before.postings.contains_key(all[at]) && before.lengths.contains_key(all[at]));
        if fields.contains_key(k) {
            let words = cleaned_words(fields[k]);
            lemma_merge_record_all(a.postings[k], before.postings[k], words, d);
            let x = merge_index(a, index_field(before, k, d, fields[k]));
            let y = index_field(merge_index(a, before), k, d, fields[k]);
            assert(x.lengths[k] =~= y.lengths[k]);
            assert(x.postings =~= y.postings);
            assert(x.lengths =~= y.lengths);
        }
    }
}

/// A worker's share merged into an index has the effect of indexing the
/// share on top of that index: for every index `a` over the fields `keys`,
/// merging it with the index of `docs` gives the index of `docs` after `a`.
pub proof fn lemma_merge_is_indexing(a: IndexModel, keys: Seq<Seq<u8>>, docs: Seq<Option<DocModel>>)
    requires
        has_fields(a, keys),
        forall|k: Seq<u8>| a.postings.contains_key(k) <==> keys.contains(k),
        forall|k: Seq<u8>| a.lengths.contains_key(k) <==> keys.contains(k),
    ensures
        merge_index(a, index_all(empty_index(keys), keys, docs)) == index_all(a, keys, docs),
        has_fields(index_all(empty_index(keys), keys, docs), keys),
    decreases docs.len(),
{
    let b0 = empty_index(keys);
    assert(has_fields(b0, keys)) by {
        assert forall|i: int| 0 <= i < keys.len() implies b0.postings.contains_key(#[trigger] keys[i])
            && b0.lengths.contains_key(keys[i]) by {
            assert(keys.contains(keys[i]));
        }
    }
    if docs.len() == 0 {
        let x = merge_index(a, b0);
        assert forall|k: Seq<u8>| x.postings.contains_key(k) implies #[trigger] x.postings[k]
            == a.postings[k] by {
            lemma_merge_empty(a.postings[k]);
        }
        assert forall|k: Seq<u8>| x.lengths.contains_key(k) implies #[trigger] x.lengths[k] =~= a.lengths[k] by {}
        assert(x.postings =~= a.postings);
        assert(x.lengths =~= a.lengths);
    } else {
        let front = docs.drop_last();
        lemma_merge_is_indexing(a, keys, front);
        let before = index_all(b0, keys, front);
        match docs.last() {
            Some(doc) => {
                assert forall|i: int| 0 <= i < keys.len() implies keys.contains(#[trigger] keys[i]) by {}
                lemma_merge_index_document(a, before, keys, keys, bytes_of(padded(doc.docid)), doc.fields);
            },
            None => {},
        }
    }
}

/// Indexing two inputs one after the other is indexing them as one.
pub proof fn lemma_index_all_concat(
    m: IndexModel,
    keys: Seq<Seq<u8>>,
    a: Seq<Option<DocModel>>,
    b: Seq<Option<DocModel>>,
)
    ensures
        index_all(m, keys, a + b) == index_all(index_all(m, keys, a), keys, b),
    decreases b.len(),
{
    if b.len() == 0 {
        assert(a + b =~= a);
    } else {
        lemma_index_all_concat(m, keys, a, b.drop_last());
        assert((a + b).drop_last() =~= a + b.drop_last());
        assert((a + b).last() == b.last());
    }
}

/// An index of documents has exactly the configured fields, whatever the
/// documents.
pub proof fn lemma_index_all_fields(keys: Seq<Seq<u8>>, docs: Seq<Option<DocModel>>)
    ensures
        forall|f: Seq<u8>| index_all(empty_index(keys), keys, docs).postings.contains_key(f) <==> keys.contains(f),
        forall|f: Seq<u8>| index_all(empty_index(keys), keys, docs).lengths.contains_key(f) <==> keys.contains(f),
        has_fields(index_all(empty_index(keys), keys, docs), keys),
    decreases docs.len(),
{
    let m = index_all(empty_index(keys), keys, docs);
    if docs.len() > 0 {
        lemma_index_all_fields(keys, docs.drop_last());
        let before = index_all(empty_index(keys), keys, docs.drop_last());
        match docs.last() {
            Some(doc) => {
                let d = bytes_of(padded(doc.docid));
                assert forall|f: Seq<u8>| m.postings.contains_key(f) <==> keys.contains(f) by {
                    lemma_index_document_names(before, keys, d, doc.fields, f, f, d);
                }
                assert forall|f: Seq<u8>| m.lengths.contains_key(f) <==> keys.contains(f) by {
                    lemma_index_document_names(before, keys, d, doc.fields, f, f, d);
                }
            },
            None => {},
        }
    }
    assert forall|i: int| 0 <= i < keys.len() implies m.postings.contains_key(#[trigger] keys[i])
        && m.lengths.contains_key(keys[i]) by {
        assert(keys.contains(keys[i]));
    }
}

/// Sharing the documents out does not change the index: merging the index
/// of one share with the index of another gives the index of both shares
/// together.
pub proof fn lemma_merge_shares(keys: Seq<Seq<u8>>, a: Seq<Option<DocModel>>, b: Seq<Option<DocModel>>)
    ensures
        merge_index(index_all(empty_index(keys), keys, a), index_all(empty_index(keys), keys, b))
            == index_all(empty_index(keys), keys, a + b),
{
    lemma_index_all_fields(keys, a);
    lemma_merge_is_indexing(index_all(empty_index(keys), keys, a), keys, b);
    lemma_index_all_concat(empty_index(keys), keys, a, b);
}

/// Two runs over the same documents in different orders write the same
/// bytes for every field, as long as no two documents have the same padded
/// identifier.
pub proof fn lemma_order_does_not_show(
    a: IndexOutput,
    b: IndexOutput,
    keys: Seq<Seq<u8>>,
    docs1: Seq<Option<DocModel>>,
    docs2: Seq<Option<DocModel>>,
    n_docs: usize,
)
    requires
        docs1.to_multiset() == docs2.to_multiset(),
        distinct_ids(docs1),
        index_written(a, index_all(empty_index(keys), keys, docs1), n_docs),
        index_written(b, index_all(empty_index(keys), keys, docs2), n_docs),
    ensures
        a.fields().len() == b.fields().len(),
        forall|i: int|
            0 <= i < a.fields().len() ==> {
                &&& (#[trigger] a.fields()[i]).key() == b.fields()[i].key()
                &&& a.fields()[i].postings_data() == b.fields()[i].postings_data()
                &&& a.fields()[i].postings_index() == b.fields()[i].postings_index()
                &&& a.fields()[i].lengths_index() == b.fields()[i].lengths_index()
                &&& a.fields()[i].total_length() == b.fields()[i].total_length()
                &&& a.fields()[i].documents() == b.fields()[i].documents()
            },
{
    lemma_index_all_permutation(empty_index(keys), keys, docs1, docs2);
    lemma_files_determined(a, b, index_all(empty_index(keys), keys, docs1), n_docs);
}

} // verus!

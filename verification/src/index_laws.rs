//! What holds of every index: which documents its postings and lengths
//! name, and that they are the documents that were indexed.

use vstd::prelude::*;
use crate::indexer::{empty_index, index_all, index_document, padded, record_all, DocModel, IndexModel};
use crate::lex::bytes_of;
use crate::postings::{lemma_record_positive, positive, record};
use crate::tokenizer::cleaned_words;

verus! {

/// The postings name the document `d` under the token `t`.
pub open spec fn names(postings: Map<Seq<u8>, Map<Seq<u8>, u64>>, t: Seq<u8>, d: Seq<u8>) -> bool {
    postings.contains_key(t) && postings[t].contains_key(d)
}

/// `t` is one of the words.
pub open spec fn word_of(words: Seq<Seq<char>>, t: Seq<u8>) -> bool {
    exists|j: int| 0 <= j < words.len() && bytes_of(#[trigger] words[j]) == t
}

/// The document has a text under the index key `f`, one of `keys`, and `t`
/// is one of its cleaned tokens.
pub open spec fn holds_token(keys: Seq<Seq<u8>>, fields: Map<Seq<u8>, Seq<char>>, f: Seq<u8>, t: Seq<u8>) -> bool {
    keys.contains(f) && fields.contains_key(f) && word_of(cleaned_words(fields[f]), t)
}

/// One of the documents has the padded identifier `d` and holds the token
/// `t` in its field `f`.
pub open spec fn occurs(docs: Seq<Option<DocModel>>, keys: Seq<Seq<u8>>, f: Seq<u8>, t: Seq<u8>, d: Seq<u8>) -> bool {
    exists|i: int|
        0 <= i < docs.len() && (#[trigger] docs[i]) is Some && bytes_of(padded(docs[i]->0.docid)) == d
            && holds_token(keys, docs[i]->0.fields, f, t)
}

/// One of the documents has the padded identifier `d` and a text under the
/// index key `f`, one of `keys`.
pub open spec fn measured(docs: Seq<Option<DocModel>>, keys: Seq<Seq<u8>>, f: Seq<u8>, d: Seq<u8>) -> bool {
    exists|i: int|
        0 <= i < docs.len() && (#[trigger] docs[i]) is Some && bytes_of(padded(docs[i]->0.docid)) == d
            && keys.contains(f) && docs[i]->0.fields.contains_key(f)
}

/// Recording an occurrence names that document under that token and
/// changes nothing else of what is named.
pub proof fn lemma_record_names(
    postings: Map<Seq<u8>, Map<Seq<u8>, u64>>,
    t0: Seq<u8>,
    d0: Seq<u8>,
    t: Seq<u8>,
    d: Seq<u8>,
)
    ensures
        names(record(postings, t0, d0), t, d) <==> (names(postings, t, d) || (t == t0 && d == d0)),
{
}

/// Recording the words of a text names the document under each of them and
/// changes nothing else of what is named.
pub proof fn lemma_record_all_names(
    postings: Map<Seq<u8>, Map<Seq<u8>, u64>>,
    words: Seq<Seq<char>>,
    d0: Seq<u8>,
    t: Seq<u8>,
    d: Seq<u8>,
)
    ensures
        names(record_all(postings, words, d0), t, d) <==> (names(postings, t, d) || (d == d0 && word_of(
            words,
            t,
        ))),
    decreases words.len(),
{
    if words.len() > 0 {
        let front = words.drop_last();
        lemma_record_all_names(postings, front, d0, t, d);
        lemma_record_names(record_all(postings, front, d0), bytes_of(words.last()), d0, t, d);
        if word_of(front, t) {
            let j = choose|j: int| 0 <= j < front.len() && bytes_of(#[trigger] front[j]) == t;
            assert(words[j] == front[j]);
        }
        if word_of(words, t) {
            let j = choose|j: int| 0 <= j < words.len() && bytes_of(#[trigger] words[j]) == t;
            if j < front.len() {
                assert(front[j] == words[j]);
            }
        }
        if bytes_of(words.last()) == t {
            assert(words[words.len() - 1] == words.last());
        }
    }
}

/// Indexing a document names it under the tokens of its texts, gives it a
/// length in each field for which it has a text, and changes nothing else
/// of what is named or measured.
pub proof fn lemma_index_document_names(
    m: IndexModel,
    keys: Seq<Seq<u8>>,
    d0: Seq<u8>,
    fields: Map<Seq<u8>, Seq<char>>,
    f: Seq<u8>,
    t: Seq<u8>,
    d: Seq<u8>,
)
    ensures
        names(index_document(m, keys, d0, fields).postings[f], t, d) <==> (names(m.postings[f], t, d) || (d
            == d0 && holds_token(keys, fields, f, t))),
        index_document(m, keys, d0, fields).lengths[f].contains_key(d) <==> (m.lengths[f].contains_key(d)
            || (d == d0 && keys.contains(f) && fields.contains_key(f))),
        index_document(m, keys, d0, fields).postings.contains_key(f) <==> (m.postings.contains_key(f) || (
        keys.contains(f) && fields.contains_key(f))),
        index_document(m, keys, d0, fields).lengths.contains_key(f) <==> (m.lengths.contains_key(f) || (
        keys.contains(f) && fields.contains_key(f))),
    decreases keys.len(),
{
    if keys.len() > 0 {
        let front = keys.drop_last();
        let k = keys.last();
        let before = index_document(m, front, d0, fields);
        lemma_index_document_names(m, front, d0, fields, f, t, d);
        assert(keys[keys.len() - 1] == k);
        assert(keys.contains(k));
        if front.contains(f) {
            let j = front.index_of(f);
            assert(keys[j] == f);
        }
        if keys.contains(f) && f != k {
            let j = keys.index_of(f);
            assert(front[j] == f);
        }
        if fields.contains_key(k) {
            if f == k {
                lemma_record_all_names(before.postings[k], cleaned_words(fields[k]), d0, t, d);
            }
        }
    }
}

/// What an index names and measures is what was indexed: a document stands
/// under a token of a field exactly if one of the indexed documents has
/// that identifier and holds the token in that field, and it has a length
/// in a field exactly if one of them has that identifier and a text in the
/// field.
pub proof fn lemma_index_all_names(
    keys: Seq<Seq<u8>>,
    docs: Seq<Option<DocModel>>,
    f: Seq<u8>,
    t: Seq<u8>,
    d: Seq<u8>,
)
    requires
        keys.contains(f),
    ensures
        names(index_all(empty_index(keys), keys, docs).postings[f], t, d) <==> occurs(docs, keys, f, t, d),
        index_all(empty_index(keys), keys, docs).lengths[f].contains_key(d) <==> measured(docs, keys, f, d),
        index_all(empty_index(keys), keys, docs).postings.contains_key(f),
        index_all(empty_index(keys), keys, docs).lengths.contains_key(f),
    decreases docs.len(),
{
    if docs.len() > 0 {
        let front = docs.drop_last();
        let n = docs.len() - 1;
        let before = index_all(empty_index(keys), keys, front);
        lemma_index_all_names(keys, front, f, t, d);
        assert(docs[n] == docs.last());
        if occurs(front, keys, f, t, d) {
            let i = choose|i: int|
                0 <= i < front.len() && (#[trigger] front[i]) is Some && bytes_of(
                    padded(front[i]->0.docid),
                ) == d && holds_token(keys, front[i]->0.fields, f, t);
            assert(docs[i] == front[i]);
        }
        if measured(front, keys, f, d) {
            let i = choose|i: int|
                0 <= i < front.len() && (#[trigger] front[i]) is Some && bytes_of(
                    padded(front[i]->0.docid),
                ) == d && keys.contains(f) && front[i]->0.fields.contains_key(f);
            assert(docs[i] == front[i]);
        }
        if occurs(docs, keys, f, t, d) {
            let i = choose|i: int|
                0 <= i < docs.len() && (#[trigger] docs[i]) is Some && bytes_of(padded(docs[i]->0.docid))
                    == d && holds_token(keys, docs[i]->0.fields, f, t);
            if i < n {
                assert(front[i] == docs[i]);
            }
        }
        if measured(docs, keys, f, d) {
            let i = choose|i: int|
                0 <= i < docs.len() && (#[trigger] docs[i]) is Some && bytes_of(padded(docs[i]->0.docid))
                    == d && keys.contains(f) && docs[i]->0.fields.contains_key(f);
            if i < n {
                assert(front[i] == docs[i]);
            }
        }
        match docs.last() {
            Some(doc) => {
                lemma_index_document_names(before, keys, bytes_of(padded(doc.docid)), doc.fields, f, t, d);
            },
            None => {},
        }
    }
}

/// Recording the words of a text keeps every frequency at 1 or more.
pub proof fn lemma_record_all_positive(postings: Map<Seq<u8>, Map<Seq<u8>, u64>>, words: Seq<Seq<char>>, d: Seq<u8>)
    requires
        positive(postings),
    ensures
        positive(record_all(postings, words, d)),
    decreases words.len(),
{
    if words.len() > 0 {
        lemma_record_all_positive(postings, words.drop_last(), d);
        lemma_record_positive(record_all(postings, words.drop_last(), d), bytes_of(words.last()), d);
    }
}

/// Every field of the index holds frequencies of 1 or more only.
pub open spec fn all_positive(m: IndexModel) -> bool {
    forall|f: Seq<u8>| m.postings.contains_key(f) ==> positive(#[trigger] m.postings[f])
}

/// Indexing a document keeps every frequency at 1 or more.
pub proof fn lemma_index_document_positive(
    m: IndexModel,
    keys: Seq<Seq<u8>>,
    d: Seq<u8>,
    fields: Map<Seq<u8>, Seq<char>>,
)
    requires
        all_positive(m),
        forall|i: int| 0 <= i < keys.len() ==> m.postings.contains_key(#[trigger] keys[i]),
    ensures
        all_positive(index_document(m, keys, d, fields)),
        forall|f: Seq<u8>| index_document(m, keys, d, fields).postings.contains_key(f) <==> m.postings.contains_key(f),
    decreases keys.len(),
{
    if keys.len() > 0 {
        let front = keys.drop_last();
        let k = keys.last();
        assert forall|i: int| 0 <= i < front.len() implies m.postings.contains_key(#[trigger] front[i]) by {
            assert(front[i] == keys[i]);
        }
        lemma_index_document_positive(m, front, d, fields);
        let before = index_document(m, front, d, fields);
        assert(keys[keys.len() - 1] == k);
        if fields.contains_key(k) {
            lemma_record_all_positive(before.postings[k], cleaned_words(fields[k]), d);
        }
    }
}

/// A token that the index holds for a document occurs in it at least once:
/// every frequency in an index is 1 or more.
pub proof fn lemma_index_all_positive(keys: Seq<Seq<u8>>, docs: Seq<Option<DocModel>>)
    ensures
        all_positive(index_all(empty_index(keys), keys, docs)),
        forall|f: Seq<u8>| index_all(empty_index(keys), keys, docs).postings.contains_key(f) <==> keys.contains(f),
    decreases docs.len(),
{
    if docs.len() > 0 {
        lemma_index_all_positive(keys, docs.drop_last());
        let before = index_all(empty_index(keys), keys, docs.drop_last());
        match docs.last() {
            Some(doc) => {
                assert forall|i: int| 0 <= i < keys.len() implies before.postings.contains_key(
                    #[trigger] keys[i],
                ) by {
                    assert(keys.contains(keys[i]));
                }
                lemma_index_document_positive(before, keys, bytes_of(padded(doc.docid)), doc.fields);
            },
            None => {},
        }
    }
}

/// Every document that the postings of a field name has a length in that
/// field.
pub proof fn lemma_lengths_cover_postings(
    keys: Seq<Seq<u8>>,
    docs: Seq<Option<DocModel>>,
    f: Seq<u8>,
    t: Seq<u8>,
    d: Seq<u8>,
)
    requires
        keys.contains(f),
        names(index_all(empty_index(keys), keys, docs).postings[f], t, d),
    ensures
        index_all(empty_index(keys), keys, docs).lengths.contains_key(f),
        index_all(empty_index(keys), keys, docs).lengths[f].contains_key(d),
{
    lemma_index_all_names(keys, docs, f, t, d);
    let i = choose|i: int|
        0 <= i < docs.len() && (#[trigger] docs[i]) is Some && bytes_of(padded(docs[i]->0.docid)) == d
            && holds_token(keys, docs[i]->0.fields, f, t);
    assert(measured(docs, keys, f, d));
}

} // verus!

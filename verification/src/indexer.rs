//! The indexer: documents are tokenized field by field into postings and
//! lengths, partial results are merged, and the merged result is written out
//! as the files of an index.

use vstd::prelude::*;
use vstd::string::StringExecFns;
use crate::avg_lengths::Avglengths;
use crate::lengths::{total, Lengths};
use crate::lex::bytes_of;
use crate::codec::{fold_pairs, frame_at, CodecError};
use crate::postings::{lemma_postings_absent, lemma_postings_read_back, merge, postings_data, postings_positions, record, storable, Postings};
use crate::stats::{IndexStats, Stats};
use crate::str_map::{lemma_listing_unique, lemma_map_values_listing, lemma_to_map_at, sorted_keys, sorted_values, StrMap};
use crate::symbols::{fst_image, image_map, is_image, listing};
use crate::tokenizer::{cleaned, cleaned_words, tokenize, whitespace_words};

verus! {

/// The largest number of bytes that a document identifier may have.
pub const MAX_DOCID_LENGTH: usize = 32;

/// A document identifier filled up with NUL characters to
/// `MAX_DOCID_LENGTH` bytes.
pub open spec fn padded(docid: Seq<char>) -> Seq<char> {
    docid + Seq::new((MAX_DOCID_LENGTH - bytes_of(docid).len()) as nat, |i: int| '\0')
}

/// Fills a document identifier up with NUL characters to
/// `MAX_DOCID_LENGTH` bytes, the form under which the index knows it.
pub fn pad_docid(docid: &str) -> (r: String)
    requires
        bytes_of(docid@).len() <= MAX_DOCID_LENGTH,
    ensures
        r@ == padded(docid@),
{
    let n = docid.as_bytes().len();
    let mut r = docid.to_owned();
    let mut i: usize = n;
    proof {
        assert(r@ =~= docid@ + Seq::new(0, |k: int| '\0'));
    }
    while i < MAX_DOCID_LENGTH
        invariant
            n <= i <= MAX_DOCID_LENGTH,
            n == bytes_of(docid@).len(),
            r@ == docid@ + Seq::new((i - n) as nat, |k: int| '\0'),
        decreases MAX_DOCID_LENGTH - i,
    {
        proof {
            reveal_strlit("\0");
            assert("\0"@ =~= seq!['\0']);
            assert(docid@ + Seq::new((i - n) as nat, |k: int| '\0') + seq!['\0'] =~= docid@ + Seq::new(
                (i + 1 - n) as nat,
                |k: int| '\0',
            ));
        }
        r.append("\0");
        i += 1;
    }
    r
}

/// What an index holds, field by field: the postings and the document
/// lengths.
pub struct IndexModel {
    /// For each field, token and document, the frequency of the token.
    pub postings: Map<Seq<u8>, Map<Seq<u8>, Map<Seq<u8>, u64>>>,
    /// For each field and document, the number of tokens.
    pub lengths: Map<Seq<u8>, Map<Seq<u8>, u64>>,
}

/// What is read of a document: its identifier and, by index key, its texts.
pub struct DocModel {
    /// The identifier as it stands in the document.
    pub docid: Seq<char>,
    /// The text of each field that the document has, by index key.
    pub fields: Map<Seq<u8>, Seq<char>>,
}

/// The bytes of each string of a sequence.
pub open spec fn keys_bytes(keys: Seq<String>) -> Seq<Seq<u8>> {
    Seq::new(keys.len(), |i: int| bytes_of(keys[i]@))
}

/// The texts of a document by index key.
pub open spec fn texts_of(fields: Map<Seq<u8>, String>) -> Map<Seq<u8>, Seq<char>> {
    fields.map_values(|s: String| s@)
}

/// The postings after the tokens of one field of a document, in order.
pub open spec fn record_all(
    postings: Map<Seq<u8>, Map<Seq<u8>, u64>>,
    tokens: Seq<Seq<char>>,
    docid: Seq<u8>,
) -> Map<Seq<u8>, Map<Seq<u8>, u64>>
    decreases tokens.len(),
{
    if tokens.len() == 0 {
        postings
    } else {
        record(record_all(postings, tokens.drop_last(), docid), bytes_of(tokens.last()), docid)
    }
}

/// The index after one field of a document: each cleaned token of the text
/// is recorded, and the number of tokens is the document's length.
pub open spec fn index_field(m: IndexModel, key: Seq<u8>, docid: Seq<u8>, text: Seq<char>) -> IndexModel {
    IndexModel {
        postings: m.postings.insert(key, record_all(m.postings[key], cleaned_words(text), docid)),
        lengths: m.lengths.insert(key, m.lengths[key].insert(docid, cleaned_words(text).len() as u64)),
    }
}

/// The index after a document: each of the index keys, in order, for which
/// the document has a text, is indexed with that text.
pub open spec fn index_document(
    m: IndexModel,
    keys: Seq<Seq<u8>>,
    docid: Seq<u8>,
    fields: Map<Seq<u8>, Seq<char>>,
) -> IndexModel
    decreases keys.len(),
{
    if keys.len() == 0 {
        m
    } else {
        let before = index_document(m, keys.drop_last(), docid, fields);
        if fields.contains_key(keys.last()) {
            index_field(before, keys.last(), docid, fields[keys.last()])
        } else {
            before
        }
    }
}

/// The document that is indexed for an entry of the input, if any: none
/// for a missing document, none for one whose identifier is too long.
pub open spec fn doc_of(doc: Option<(String, StrMap<String>)>) -> Option<DocModel> {
    match doc {
        Some(d) => if bytes_of(d.0@).len() <= MAX_DOCID_LENGTH {
            Some(DocModel { docid: d.0@, fields: texts_of(d.1@) })
        } else {
            None
        },
        None => None,
    }
}

/// The documents that are indexed for the entries of the input.
pub open spec fn docs_of(docs: Seq<Option<(String, StrMap<String>)>>) -> Seq<Option<DocModel>> {
    Seq::new(docs.len(), |i: int| doc_of(docs[i]))
}

/// The index after the documents, one after the other.
pub open spec fn index_all(m: IndexModel, keys: Seq<Seq<u8>>, docs: Seq<Option<DocModel>>) -> IndexModel
    decreases docs.len(),
{
    if docs.len() == 0 {
        m
    } else {
        let before = index_all(m, keys, docs.drop_last());
        match docs.last() {
            Some(d) => index_document(before, keys, bytes_of(padded(d.docid)), d.fields),
            None => before,
        }
    }
}

/// The number of documents that are indexed.
pub open spec fn count_all(docs: Seq<Option<DocModel>>) -> nat
    decreases docs.len(),
{
    if docs.len() == 0 {
        0
    } else {
        count_all(docs.drop_last()) + if docs.last() is Some {
            1nat
        } else {
            0nat
        }
    }
}

/// An index without a document: each of the keys with no postings and no
/// lengths.
pub open spec fn empty_index(keys: Seq<Seq<u8>>) -> IndexModel {
    IndexModel {
        postings: Map::new(|k: Seq<u8>| keys.contains(k), |k: Seq<u8>| Map::empty()),
        lengths: Map::new(|k: Seq<u8>| keys.contains(k), |k: Seq<u8>| Map::empty()),
    }
}

/// The empty index of one more key has one more field.
pub proof fn lemma_empty_index_step(keys: Seq<Seq<u8>>, i: int)
    requires
        0 <= i < keys.len(),
    ensures
        empty_index(keys.take(i + 1)).postings == empty_index(keys.take(i)).postings.insert(
            keys[i],
            Map::empty(),
        ),
        empty_index(keys.take(i + 1)).lengths == empty_index(keys.take(i)).lengths.insert(
            keys[i],
            Map::empty(),
        ),
{
    let more = keys.take(i + 1);
    let less = keys.take(i);
    assert forall|k: Seq<u8>| more.contains(k) <==> (less.contains(k) || k == keys[i]) by {
        if more.contains(k) {
            let j = more.index_of(k);
            if j < i {
                assert(less[j] == k);
            }
        }
        if less.contains(k) {
            let j = less.index_of(k);
            assert(more[j] == k);
        }
        if k == keys[i] {
            assert(more[i] == k);
        }
    }
    assert(empty_index(more).postings =~= empty_index(less).postings.insert(keys[i], Map::empty()));
    assert(empty_index(more).lengths =~= empty_index(less).lengths.insert(keys[i], Map::empty()));
}

/// Two indexes over the same fields merged: the postings are summed, and of
/// two lengths of one document the one from `b` stands.
pub open spec fn merge_index(a: IndexModel, b: IndexModel) -> IndexModel {
    IndexModel {
        postings: Map::new(
            |k: Seq<u8>| a.postings.contains_key(k),
            |k: Seq<u8>| merge(a.postings[k], b.postings[k]),
        ),
        lengths: Map::new(
            |k: Seq<u8>| a.lengths.contains_key(k),
            |k: Seq<u8>| a.lengths[k].union_prefer_right(b.lengths[k]),
        ),
    }
}

/// What a set of per-field accumulators holds.
pub open spec fn writers_model(postings: StrMap<Postings>, lengths: StrMap<Lengths>) -> IndexModel {
    IndexModel {
        postings: postings@.map_values(|p: Postings| p@),
        lengths: lengths@.map_values(|l: Lengths| l@),
    }
}

/// Every one of the keys has an accumulator of each kind.
pub open spec fn writers_cover(postings: StrMap<Postings>, lengths: StrMap<Lengths>, keys: Seq<Seq<u8>>) -> bool {
    forall|i: int|
        0 <= i < keys.len() ==> postings@.contains_key(#[trigger] keys[i]) && lengths@.contains_key(
            keys[i],
        )
}

/// The files of one field of an index, with the sum and the number of the
/// document lengths.
pub struct FieldOutput {
    index_key: String,
    postings_data: Vec<u8>,
    postings_index: Vec<u8>,
    lengths_index: Vec<u8>,
    total_length: u128,
    documents: usize,
}

impl FieldOutput {
    /// The bytes of the index key.
    pub closed spec fn key(&self) -> Seq<u8> {
        bytes_of(self.index_key@)
    }

    /// The postings data file.
    pub closed spec fn postings_data(&self) -> Seq<u8> {
        self.postings_data@
    }

    /// The symbol table from tokens to offsets in the data file.
    pub closed spec fn postings_index(&self) -> Seq<u8> {
        self.postings_index@
    }

    /// The symbol table from document identifiers to lengths.
    pub closed spec fn lengths_index(&self) -> Seq<u8> {
        self.lengths_index@
    }

    /// The sum of the document lengths.
    pub closed spec fn total_length(&self) -> u128 {
        self.total_length
    }

    /// The number of documents that have a length.
    pub closed spec fn documents(&self) -> usize {
        self.documents
    }

    /// Both symbol tables are images of tables with ascending keys.
    pub closed spec fn wf(&self) -> bool {
        is_image(self.postings_index@) && is_image(self.lengths_index@)
    }

    #[verifier::type_invariant]
    closed spec fn inv(&self) -> bool {
        self.wf()
    }

    /// The name of the field in the index.
    pub fn index_key(&self) -> (key: &String)
        ensures
            bytes_of(key@) == self.key(),
    {
        &self.index_key
    }

    /// The postings data file: the framed entries.
    pub fn postings_data_bytes(&self) -> (bytes: &Vec<u8>)
        ensures
            bytes@ == self.postings_data(),
    {
        &self.postings_data
    }

    /// The postings symbol table.
    pub fn postings_index_bytes(&self) -> (bytes: &Vec<u8>)
        ensures
            bytes@ == self.postings_index(),
            is_image(bytes@),
    {
        proof {
            use_type_invariant(self);
        }
        &self.postings_index
    }

    /// The lengths symbol table.
    pub fn lengths_index_bytes(&self) -> (bytes: &Vec<u8>)
        ensures
            bytes@ == self.lengths_index(),
            is_image(bytes@),
    {
        proof {
            use_type_invariant(self);
        }
        &self.lengths_index
    }

    /// The sum of the document lengths and their number.
    pub fn length_totals(&self) -> (r: (u128, usize))
        ensures
            r.0 == self.total_length(),
            r.1 == self.documents(),
    {
        (self.total_length, self.documents)
    }
}

/// The files of field `key` hold these postings and lengths.
pub open spec fn field_written(
    f: FieldOutput,
    key: Seq<u8>,
    postings: Map<Seq<u8>, Map<Seq<u8>, u64>>,
    lengths: Map<Seq<u8>, u64>,
) -> bool {
    &&& f.key() == key
    &&& storable(postings)
    &&& f.postings_data() == postings_data(postings)
    &&& f.postings_index() == fst_image(listing(postings_positions(postings)))
    &&& image_map(f.postings_index()) == postings_positions(postings)
    &&& f.lengths_index() == fst_image(listing(lengths))
    &&& image_map(f.lengths_index()) == lengths
    &&& f.total_length() == total(sorted_values(lengths))
    &&& f.documents() == lengths.dom().len()
}

/// The files of an index, held in memory.
pub struct IndexOutput {
    fields: Vec<FieldOutput>,
    avg_lengths_index: Vec<u8>,
    stats: IndexStats,
}

impl IndexOutput {
    /// The fields in ascending order of their index keys.
    pub closed spec fn fields(&self) -> Seq<FieldOutput> {
        self.fields@
    }

    /// The symbol table from index keys to the bits of the average lengths.
    pub closed spec fn avg_lengths_index(&self) -> Seq<u8> {
        self.avg_lengths_index@
    }

    /// The statistics.
    pub closed spec fn stats(&self) -> IndexStats {
        self.stats
    }

    /// Every symbol table is the image of a table with ascending keys.
    pub closed spec fn wf(&self) -> bool {
        &&& is_image(self.avg_lengths_index@)
        &&& forall|i: int| 0 <= i < self.fields@.len() ==> (#[trigger] self.fields@[i]).wf()
    }

    #[verifier::type_invariant]
    closed spec fn inv(&self) -> bool {
        self.wf()
    }

    /// The number of fields.
    pub fn field_count(&self) -> (n: usize)
        ensures
            n == self.fields().len(),
    {
        self.fields.len()
    }

    /// The files of a field.
    pub fn field(&self, i: usize) -> (f: &FieldOutput)
        requires
            i < self.fields().len(),
        ensures
            *f == self.fields()[i as int],
    {
        &self.fields[i]
    }

    /// The average-lengths symbol table.
    pub fn avg_lengths_index_bytes(&self) -> (bytes: &Vec<u8>)
        ensures
            bytes@ == self.avg_lengths_index(),
            is_image(bytes@),
    {
        proof {
            use_type_invariant(self);
        }
        &self.avg_lengths_index
    }

    /// The statistics.
    pub fn index_stats(&self) -> (stats: IndexStats)
        ensures
            stats == self.stats(),
    {
        self.stats
    }
}

/// The files hold the index `m` of `n_docs` documents: one field for each
/// index key, in ascending order of the keys.
pub open spec fn index_written(out: IndexOutput, m: IndexModel, n_docs: usize) -> bool {
    &&& out.stats() == (IndexStats { n_docs })
    &&& out.fields().len() == sorted_keys(m.postings).len()
    &&& forall|i: int|
        0 <= i < out.fields().len() ==> field_written(
            #[trigger] out.fields()[i],
            sorted_keys(m.postings)[i],
            m.postings[sorted_keys(m.postings)[i]],
            m.lengths[sorted_keys(m.postings)[i]],
        )
    &&& image_map(out.avg_lengths_index()).dom() == m.postings.dom()
    &&& out.avg_lengths_index() == fst_image(listing(image_map(out.avg_lengths_index())))
}

/// The average length that the files hold for each field is what
/// `mean_bits` gave for the sum and the number of the field's lengths.
pub open spec fn averages_written<F: Fn(u128, usize) -> u64>(out: IndexOutput, mean_bits: F) -> bool {
    forall|i: int|
        0 <= i < out.fields().len() ==> mean_bits.ensures(
            ((#[trigger] out.fields()[i]).total_length(), out.fields()[i].documents()),
            image_map(out.avg_lengths_index())[out.fields()[i].key()],
        )
}

/// Records the tokens of one field of a document in the field's postings.
fn record_field(writer: &mut Postings, docid: &String, text: &str) -> (count: usize)
    ensures
        final(writer)@ == record_all(old(writer)@, cleaned_words(text@), bytes_of(docid@)),
        final(writer).index_key() == old(writer).index_key(),
        count == cleaned_words(text@).len(),
        text@.len() == 0 ==> count == 0,
{
    let tokens = tokenize(text);
    let ghost start = writer@;
    let ghost words = cleaned_words(text@);
    let mut j: usize = 0;
    proof {
        assert(words.take(0) =~= Seq::<Seq<char>>::empty());
    }
    while j < tokens.len()
        invariant
            j <= tokens@.len(),
            tokens@.len() == whitespace_words(text@).len(),
            forall|k: int| 0 <= k < tokens@.len() ==> (#[trigger] tokens@[k])@ == whitespace_words(text@)[k],
            words == cleaned_words(text@),
            writer.index_key() == old(writer).index_key(),
            writer@ == record_all(start, words.take(j as int), bytes_of(docid@)),
        decreases tokens@.len() - j,
    {
        let token = tokens[j].clean();
        proof {
            assert(words.take(j + 1).drop_last() =~= words.take(j as int));
            assert(words.take(j + 1).last() == token@);
        }
        writer.add_token_to_docid(docid, token.as_str());
        j += 1;
    }
    proof {
        assert(words.take(tokens@.len() as int) =~= words);
    }
    tokens.len()
}

/// The configuration of an index run: which document fields are indexed,
/// and under which index keys.
pub struct Indexer {
    field_keys: Vec<(String, String)>,
}

impl Indexer {
    /// The pairs of document field and index key.
    pub closed spec fn field_keys(&self) -> Seq<(String, String)> {
        self.field_keys@
    }

    /// The bytes of the index keys, in the order of the configuration.
    pub open spec fn index_keys(&self) -> Seq<Seq<u8>> {
        Seq::new(self.field_keys().len(), |i: int| bytes_of(self.field_keys()[i].1@))
    }

    /// An indexer for the given pairs of document field and index key.
    pub fn new(field_keys: Vec<(String, String)>) -> (indexer: Self)
        ensures
            indexer.field_keys() == field_keys@,
    {
        Self { field_keys }
    }

    /// The index keys, in the order of the configuration.
    pub fn configured_index_keys(&self) -> (keys: Vec<String>)
        ensures
            keys_bytes(keys@) == self.index_keys(),
    {
        let mut keys: Vec<String> = Vec::new();
        let mut i: usize = 0;
        while i < self.field_keys.len()
            invariant
                i <= self.field_keys@.len(),
                keys@.len() == i,
                forall|j: int| 0 <= j < i ==> (#[trigger] keys@[j])@ == self.field_keys@[j].1@,
            decreases self.field_keys@.len() - i,
        {
            keys.push(self.field_keys[i].1.clone());
            i += 1;
        }
        proof {
            assert(keys_bytes(keys@) =~= self.index_keys());
        }
        keys
    }

    /// Fresh accumulators: for each index key, postings and lengths without
    /// a document.
    pub fn new_writers(index_keys: &Vec<String>) -> (r: (StrMap<Postings>, StrMap<Lengths>))
        ensures
            writers_model(r.0, r.1) == empty_index(keys_bytes(index_keys@)),
            writers_cover(r.0, r.1, keys_bytes(index_keys@)),
            r.0.keys() == r.1.keys(),
            r.0.keys() == sorted_keys(empty_index(keys_bytes(index_keys@)).postings),
            r.0.wf(),
            r.1.wf(),
    {
        let mut postings_writers: StrMap<Postings> = StrMap::new();
        let mut lengths_writers: StrMap<Lengths> = StrMap::new();
        let ghost keys = keys_bytes(index_keys@);
        let mut i: usize = 0;
        proof {
            assert(writers_model(postings_writers, lengths_writers).postings =~= empty_index(
                keys.take(0),
            ).postings);
            assert(writers_model(postings_writers, lengths_writers).lengths =~= empty_index(
                keys.take(0),
            ).lengths);
        }
        while i < index_keys.len()
            invariant
                i <= index_keys@.len(),
                keys == keys_bytes(index_keys@),
                postings_writers.wf(),
                lengths_writers.wf(),
                writers_model(postings_writers, lengths_writers) == empty_index(keys.take(i as int)),
            decreases index_keys@.len() - i,
        {
            let ghost before = writers_model(postings_writers, lengths_writers);
            postings_writers.insert(index_keys[i].clone(), Postings::new(index_keys[i].clone()));
            lengths_writers.insert(index_keys[i].clone(), Lengths::new(index_keys[i].clone()));
            proof {
                let after = writers_model(postings_writers, lengths_writers);
                lemma_empty_index_step(keys, i as int);
                assert(after.postings =~= before.postings.insert(keys[i as int], Map::empty()));
                assert(after.lengths =~= before.lengths.insert(keys[i as int], Map::empty()));
            }
            i += 1;
        }
        proof {
            assert(keys.take(index_keys@.len() as int) =~= keys);
            postings_writers.lemma_listing();
            lengths_writers.lemma_listing();
            assert forall|k: Seq<u8>| postings_writers@.contains_key(k) <==> lengths_writers@.contains_key(
                k,
            ) by {
                assert(writers_model(postings_writers, lengths_writers).postings.contains_key(k)
                    <==> keys.contains(k));
                assert(writers_model(postings_writers, lengths_writers).lengths.contains_key(k)
                    <==> keys.contains(k));
            }
            lemma_listing_unique(
                postings_writers.keys(),
                postings_writers@,
                lengths_writers.keys(),
                lengths_writers@,
            );
            let empty = empty_index(keys).postings;
            assert(writers_model(postings_writers, lengths_writers).postings == empty);
            assert forall|k: Seq<u8>| postings_writers.keys().contains(k) <==> empty.contains_key(k) by {
                assert(postings_writers@.contains_key(k) <==> empty.contains_key(k));
            }
            assert(crate::str_map::is_listing(postings_writers.keys(), empty));
            lemma_listing_unique(postings_writers.keys(), empty, sorted_keys(empty), empty);
            assert forall|j: int| 0 <= j < keys.len() implies postings_writers@.contains_key(
                #[trigger] keys[j],
            ) && lengths_writers@.contains_key(keys[j]) by {
                assert(keys.contains(keys[j]));
                assert(writers_model(postings_writers, lengths_writers).postings.contains_key(keys[j]));
                assert(writers_model(postings_writers, lengths_writers).lengths.contains_key(keys[j]));
            }
        }
        (postings_writers, lengths_writers)
    }

    /// Indexes the text of one field of a document: every cleaned token of
    /// the text is recorded in the postings, and the number of tokens is set
    /// as the document's length. An empty text adds nothing to the postings
    /// and gives the document the length 0.
    pub fn index_field_text(postings: &mut Postings, lengths: &mut Lengths, docid: &String, text: &str)
        ensures
            final(postings)@ == record_all(old(postings)@, cleaned_words(text@), bytes_of(docid@)),
            final(lengths)@ == old(lengths)@.insert(bytes_of(docid@), cleaned_words(text@).len() as u64),
            text@.len() == 0 ==> final(postings)@ == old(postings)@ && final(lengths)@ == old(
                lengths,
            )@.insert(bytes_of(docid@), 0),
            final(postings).index_key() == old(postings).index_key(),
            final(lengths).index_key() == old(lengths).index_key(),
    {
        let count = record_field(postings, docid, text);
        lengths.add_length(docid.clone(), count as u64);
    }

    /// Indexes one document into a worker's accumulators, as
    /// `index_worker_function` does, without taking the document over.
    pub fn index_document_into(
        postings_writers: &mut StrMap<Postings>,
        lengths_writers: &mut StrMap<Lengths>,
        index_keys: &Vec<String>,
        docid: &String,
        fields_text: &StrMap<String>,
    )
        requires
            bytes_of(docid@).len() <= MAX_DOCID_LENGTH,
            writers_cover(*old(postings_writers), *old(lengths_writers), keys_bytes(index_keys@)),
        ensures
            writers_model(*final(postings_writers), *final(lengths_writers)) == index_document(
                writers_model(*old(postings_writers), *old(lengths_writers)),
                keys_bytes(index_keys@),
                bytes_of(padded(docid@)),
                texts_of(fields_text@),
            ),
            final(postings_writers)@.dom() == old(postings_writers)@.dom(),
            final(lengths_writers)@.dom() == old(lengths_writers)@.dom(),
            final(postings_writers).keys() == old(postings_writers).keys(),
            final(lengths_writers).keys() == old(lengths_writers).keys(),
            final(postings_writers).wf(),
            final(lengths_writers).wf(),
    {
        let docid = pad_docid(docid.as_str());
        let ghost d = bytes_of(docid@);
        let ghost keys = keys_bytes(index_keys@);
        let ghost fields = texts_of(fields_text@);
        let ghost start = writers_model(*postings_writers, *lengths_writers);
        proof {
            use_type_invariant(&*postings_writers);
            use_type_invariant(&*lengths_writers);
        }
        let mut i: usize = 0;
        proof {
            assert(keys.take(0) =~= Seq::<Seq<u8>>::empty());
        }
        while i < index_keys.len()
            invariant
                i <= index_keys@.len(),
                keys == keys_bytes(index_keys@),
                fields == texts_of(fields_text@),
                d == bytes_of(docid@),
                postings_writers.wf(),
                lengths_writers.wf(),
                postings_writers.keys() == old(postings_writers).keys(),
                lengths_writers.keys() == old(lengths_writers).keys(),
                postings_writers@.dom() == old(postings_writers)@.dom(),
                lengths_writers@.dom() == old(lengths_writers)@.dom(),
                writers_cover(*old(postings_writers), *old(lengths_writers), keys),
                writers_model(*postings_writers, *lengths_writers) == index_document(
                    start,
                    keys.take(i as int),
                    d,
                    fields,
                ),
            decreases index_keys@.len() - i,
        {
            let index_key = &index_keys[i];
            let ghost k = keys[i as int];
            let ghost before = writers_model(*postings_writers, *lengths_writers);
            proof {
                assert(keys.take(i + 1).drop_last() =~= keys.take(i as int));
                assert(keys.take(i + 1).last() == k);
                assert(old(postings_writers)@.contains_key(k));
                assert(old(lengths_writers)@.contains_key(k));
                assert(postings_writers@.dom().contains(k));
                assert(lengths_writers@.dom().contains(k));
            }
            match fields_text.get(index_key.as_str()) {
                Some(field_text) => {
                    match postings_writers.find(index_key.as_str()) {
                        Some(at) => match lengths_writers.find(index_key.as_str()) {
                            Some(lengths_at) => {
                                let ghost held = *postings_writers;
                                let ghost held_lengths = *lengths_writers;
                                let mut postings = Postings::new(String::new());
                                postings_writers.swap_at(at, &mut postings);
                                let mut lengths = Lengths::new(String::new());
                                lengths_writers.swap_at(lengths_at, &mut lengths);
                                Self::index_field_text(&mut postings, &mut lengths, &docid, field_text.as_str());
                                let ghost kept = postings;
                                let ghost kept_lengths = lengths;
                                postings_writers.swap_at(at, &mut postings);
                                lengths_writers.swap_at(lengths_at, &mut lengths);
                                proof {
                                    assert(postings_writers@ =~= held@.insert(k, kept));
                                    assert(lengths_writers@ =~= held_lengths@.insert(k, kept_lengths));
                                }
                            },
                            None => {},
                        },
                        None => {},
                    }
                    proof {
                        let after = writers_model(*postings_writers, *lengths_writers);
                        let want = index_field(before, k, d, fields[k]);
                        assert(after.postings =~= want.postings);
                        assert(after.lengths =~= want.lengths);
                        assert(postings_writers@.dom() =~= old(postings_writers)@.dom());
                        assert(lengths_writers@.dom() =~= old(lengths_writers)@.dom());
                    }
                },
                None => {},
            }
            i += 1;
        }
        proof {
            assert(keys.take(index_keys@.len() as int) =~= keys);
        }
    }

    /// Indexes one document into a worker's accumulators. For each index key
    /// under which the document has a text, in the order of `index_keys`,
    /// every cleaned token is recorded for the padded document identifier,
    /// and the number of tokens is set as the document's length.
    pub fn index_worker_function(
        postings_writers: &mut StrMap<Postings>,
        lengths_writers: &mut StrMap<Lengths>,
        index_keys: Vec<String>,
        docid: String,
        fields_text: StrMap<String>,
    )
        requires
            bytes_of(docid@).len() <= MAX_DOCID_LENGTH,
            writers_cover(*old(postings_writers), *old(lengths_writers), keys_bytes(index_keys@)),
        ensures
            writers_model(*final(postings_writers), *final(lengths_writers)) == index_document(
                writers_model(*old(postings_writers), *old(lengths_writers)),
                keys_bytes(index_keys@),
                bytes_of(padded(docid@)),
                texts_of(fields_text@),
            ),
            final(postings_writers).keys() == old(postings_writers).keys(),
            final(lengths_writers).keys() == old(lengths_writers).keys(),
            final(postings_writers).wf(),
            final(lengths_writers).wf(),
    {
        Self::index_document_into(postings_writers, lengths_writers, &index_keys, &docid, &fields_text);
    }

    /// Merges the accumulators of a worker into the merged ones, field by
    /// field. All four hold the same index keys.
    pub fn merge_writers(
        postings_writers: &mut StrMap<Postings>,
        lengths_writers: &mut StrMap<Lengths>,
        worker_postings_writers: &StrMap<Postings>,
        worker_lengths_writers: &StrMap<Lengths>,
    )
        requires
            old(lengths_writers).keys() == old(postings_writers).keys(),
            worker_postings_writers.keys() == old(postings_writers).keys(),
            worker_lengths_writers.keys() == old(postings_writers).keys(),
        ensures
            writers_model(*final(postings_writers), *final(lengths_writers)) == merge_index(
                writers_model(*old(postings_writers), *old(lengths_writers)),
                writers_model(*worker_postings_writers, *worker_lengths_writers),
            ),
            final(postings_writers).keys() == old(postings_writers).keys(),
            final(lengths_writers).keys() == old(lengths_writers).keys(),
            final(postings_writers).wf(),
            final(lengths_writers).wf(),
    {
        let n = postings_writers.len();
        proof {
            use_type_invariant(&*lengths_writers);
            use_type_invariant(worker_postings_writers);
            use_type_invariant(worker_lengths_writers);
        }
        let ghost keys = postings_writers.keys();
        let ghost given = postings_writers.values();
        let ghost given_lengths = lengths_writers.values();
        let mut i: usize = 0;
        while i < n
            invariant
                i <= n,
                n == keys.len(),
                keys == old(postings_writers).keys(),
                given == old(postings_writers).values(),
                given_lengths == old(lengths_writers).values(),
                postings_writers.wf(),
                lengths_writers.wf(),
                worker_postings_writers.wf(),
                worker_lengths_writers.wf(),
                postings_writers.keys() == keys,
                lengths_writers.keys() == keys,
                worker_postings_writers.keys() == keys,
                worker_lengths_writers.keys() == keys,
                forall|j: int| i <= j < n ==> #[trigger] postings_writers.values()[j] == given[j],
                forall|j: int| i <= j < n ==> #[trigger] lengths_writers.values()[j] == given_lengths[j],
                forall|j: int|
                    0 <= j < i ==> (#[trigger] postings_writers.values()[j])@ == merge(
                        given[j]@,
                        worker_postings_writers.values()[j]@,
                    ),
                forall|j: int|
                    0 <= j < i ==> (#[trigger] lengths_writers.values()[j])@
                        == given_lengths[j]@.union_prefer_right(worker_lengths_writers.values()[j]@),
            decreases n - i,
        {
            let mut postings = Postings::new(String::new());
            postings_writers.swap_at(i, &mut postings);
            postings.add_postings(worker_postings_writers.value_at(i));
            postings_writers.swap_at(i, &mut postings);
            let mut lengths = Lengths::new(String::new());
            lengths_writers.swap_at(i, &mut lengths);
            lengths.add_lengths(worker_lengths_writers.value_at(i));
            lengths_writers.swap_at(i, &mut lengths);
            i += 1;
        }
        proof {
            let a = writers_model(*old(postings_writers), *old(lengths_writers));
            let b = writers_model(*worker_postings_writers, *worker_lengths_writers);
            let c = writers_model(*postings_writers, *lengths_writers);
            let want = merge_index(a, b);
            assert forall|k: Seq<u8>| c.postings.contains_key(k) <==> a.postings.contains_key(k) by {}
            assert forall|k: Seq<u8>| c.lengths.contains_key(k) <==> a.lengths.contains_key(k) by {}
            assert forall|k: Seq<u8>| c.postings.contains_key(k) implies c.postings[k]
                == want.postings[k] by {
                let j = keys.index_of(k);
                lemma_to_map_at(keys, given, j);
                lemma_to_map_at(keys, postings_writers.values(), j);
                lemma_to_map_at(keys, worker_postings_writers.values(), j);
            }
            assert forall|k: Seq<u8>| c.lengths.contains_key(k) implies c.lengths[k] == want.lengths[k] by {
                let j = keys.index_of(k);
                lemma_to_map_at(keys, given_lengths, j);
                lemma_to_map_at(keys, lengths_writers.values(), j);
                lemma_to_map_at(keys, worker_lengths_writers.values(), j);
            }
            assert(c.postings =~= want.postings);
            assert(c.lengths =~= want.lengths);
        }
    }

    /// Writes merged accumulators out as the files of an index: for each
    /// field, in ascending order of the index keys, the postings data, the
    /// postings symbol table and the lengths symbol table; the symbol table
    /// of the average lengths; and the statistics. The average of a field is
    /// what `mean_bits` gives for the sum and the number of its lengths.
    pub fn write_index<F: Fn(u128, usize) -> u64>(
        postings_writers: StrMap<Postings>,
        lengths_writers: StrMap<Lengths>,
        n_docs: usize,
        mean_bits: F,
    ) -> (out: IndexOutput)
        requires
            forall|t: u128, n: usize| #[trigger] mean_bits.requires((t, n)),
            forall|i: int|
                0 <= i < postings_writers.keys().len() ==> lengths_writers@.contains_key(
                    #[trigger] postings_writers.keys()[i],
                ),
        ensures
            index_written(out, writers_model(postings_writers, lengths_writers), n_docs),
            averages_written(out, mean_bits),
    {
        let ghost keys = postings_writers.keys();
        let ghost given = postings_writers.values();
        let mut writers = postings_writers;
        let mut avg_lengths_writer = Avglengths::new();
        let mut fields: Vec<FieldOutput> = Vec::new();
        let n = writers.len();
        proof {
            use_type_invariant(&lengths_writers);
        }
        let mut i: usize = 0;
        while i < n
            invariant
                i <= n,
                n == keys.len(),
                writers.wf(),
                lengths_writers.wf(),
                writers.keys() == keys,
                keys == postings_writers.keys(),
                given == postings_writers.values(),
                postings_writers.wf(),
                forall|t: u128, c: usize| #[trigger] mean_bits.requires((t, c)),
                forall|j: int| 0 <= j < n ==> lengths_writers@.contains_key(#[trigger] keys[j]),
                forall|j: int| i <= j < n ==> #[trigger] writers.values()[j] == given[j],
                fields@.len() == i,
                forall|j: int| 0 <= j < i ==> (#[trigger] fields@[j]).wf(),
                forall|j: int|
                    0 <= j < i ==> field_written(
                        #[trigger] fields@[j],
                        keys[j],
                        given[j]@,
                        lengths_writers@[keys[j]]@,
                    ),
                avg_lengths_writer.wf(),
                forall|k: Seq<u8>|
                    avg_lengths_writer@.contains_key(k) <==> exists|j: int| 0 <= j < i && keys[j] == k,
                forall|j: int|
                    0 <= j < i ==> mean_bits.ensures(
                        (fields@[j].total_length(), fields@[j].documents()),
                        #[trigger] avg_lengths_writer@[keys[j]],
                    ),
            decreases n - i,
        {
            let index_key = writers.key_at(i).clone();
            let ghost k = keys[i as int];
            let mut writer = Postings::new(String::new());
            let ghost before = writers;
            writers.swap_at(i, &mut writer);
            let files = writer.write_postings();
            match lengths_writers.get(index_key.as_str()) {
                Some(lengths) => {
                    let lengths_file = lengths.write_lengths();
                    let bits = mean_bits(lengths_file.total_length, lengths_file.documents);
                    let ghost averages = avg_lengths_writer@;
                    avg_lengths_writer.add_avg_length(index_key.clone(), bits);
                    let field = FieldOutput {
                        index_key,
                        postings_data: files.data,
                        postings_index: files.index,
                        lengths_index: lengths_file.index,
                        total_length: lengths_file.total_length,
                        documents: lengths_file.documents,
                    };
                    proof {
                        assert(storable(given[i as int]@));
                        assert(field_written(field, k, given[i as int]@, lengths_writers@[k]@));
                        assert forall|j: int| 0 <= j < i implies keys[j] != k by {
                            if keys[j] == k {
                                crate::str_map::lemma_ascending_distinct(keys, j, i as int);
                            }
                        }
                    }
                    fields.push(field);
                },
                None => {},
            }
            i += 1;
        }
        let avg_lengths_index = avg_lengths_writer.write_avg_lengths();
        let stats_writer = Stats::new(n_docs);
        let out = IndexOutput { fields, avg_lengths_index, stats: stats_writer.index_stats() };
        proof {
            let m = writers_model(postings_writers, lengths_writers);
            assert(image_map(avg_lengths_index@).dom() =~= postings_writers@.dom());
            assert(m.postings.dom() =~= postings_writers@.dom());
            lemma_map_values_listing(keys, given, |p: Postings| p@);
            assert forall|j: int| 0 <= j < n implies m.postings[keys[j]] == given[j]@
                && lengths_writers@.contains_key(keys[j]) && m.lengths[keys[j]]
                == lengths_writers@[keys[j]]@ by {
                lemma_to_map_at(keys, given, j);
            }
            assert(index_written(out, m, n_docs));
            assert(averages_written(out, mean_bits));
        }
        out
    }

    /// Indexes the documents one after the other and writes the index out.
    /// A missing document is passed over, and so is one whose identifier has
    /// more than `MAX_DOCID_LENGTH` bytes; neither is counted.
    pub fn index<F: Fn(u128, usize) -> u64>(
        &mut self,
        docs: Vec<Option<(String, StrMap<String>)>>,
        mean_bits: F,
    ) -> (out: IndexOutput)
        requires
            forall|t: u128, n: usize| #[trigger] mean_bits.requires((t, n)),
        ensures
            index_written(
                out,
                index_all(
                    empty_index(old(self).index_keys()),
                    old(self).index_keys(),
                    docs_of(docs@),
                ),
                count_all(docs_of(docs@)) as usize,
            ),
            count_all(docs_of(docs@)) <= docs@.len(),
            averages_written(out, mean_bits),
            final(self).field_keys() == old(self).field_keys(),
    {
        let index_keys = self.configured_index_keys();
        let ghost keys = keys_bytes(index_keys@);
        let ghost all = docs_of(docs@);
        let (mut postings_writers, mut lengths_writers) = Self::new_writers(&index_keys);
        let ghost start = empty_index(keys);
        let mut n_docs: usize = 0;
        let mut i: usize = 0;
        proof {
            assert(all.take(0) =~= Seq::<Option<DocModel>>::empty());
        }
        while i < docs.len()
            invariant
                i <= docs@.len(),
                keys == keys_bytes(index_keys@),
                all == docs_of(docs@),
                start == empty_index(keys),
                postings_writers.wf(),
                lengths_writers.wf(),
                postings_writers.keys() == lengths_writers.keys(),
                writers_cover(postings_writers, lengths_writers, keys),
                writers_model(postings_writers, lengths_writers) == index_all(
                    start,
                    keys,
                    all.take(i as int),
                ),
                n_docs == count_all(all.take(i as int)),
                n_docs <= i,
            decreases docs@.len() - i,
        {
            proof {
                assert(all.take(i + 1).drop_last() =~= all.take(i as int));
                assert(all.take(i + 1).last() == doc_of(docs@[i as int]));
            }
            match &docs[i] {
                Some(doc) => {
                    if doc.0.as_str().as_bytes().len() <= MAX_DOCID_LENGTH {
                        let ghost before_postings = postings_writers;
                        let ghost before_lengths = lengths_writers;
                        Self::index_document_into(
                            &mut postings_writers,
                            &mut lengths_writers,
                            &index_keys,
                            &doc.0,
                            &doc.1,
                        );
                        n_docs += 1;
                        proof {
                            assert forall|j: int| 0 <= j < keys.len() implies postings_writers@.contains_key(
                                #[trigger] keys[j],
                            ) && lengths_writers@.contains_key(keys[j]) by {
                                assert(before_postings@.contains_key(keys[j]));
                                assert(before_lengths@.contains_key(keys[j]));
                                assert(postings_writers@.dom().contains(keys[j]));
                                assert(lengths_writers@.dom().contains(keys[j]));
                            }
                        }
                    }
                },
                None => {},
            }
            i += 1;
        }
        proof {
            assert(all.take(docs@.len() as int) =~= all);
            postings_writers.lemma_listing();
            lengths_writers.lemma_listing();
            assert forall|j: int| 0 <= j < postings_writers.keys().len() implies lengths_writers@.contains_key(
                #[trigger] postings_writers.keys()[j],
            ) by {
                lemma_to_map_at(lengths_writers.keys(), lengths_writers.values(), j);
            }
        }
        Self::write_index(postings_writers, lengths_writers, n_docs, mean_bits)
    }
}

/// Every token of a written postings symbol table reads back: the table
/// gives the offset of a frame in the field's data file, and the frame
/// decodes to the entry that the index holds for the token.
pub proof fn lemma_written_tokens_read_back(out: IndexOutput, m: IndexModel, n_docs: usize, i: int, token: Seq<u8>)
    requires
        index_written(out, m, n_docs),
        0 <= i < out.fields().len(),
        image_map(out.fields()[i].postings_index()).contains_key(token),
    ensures
        m.postings[out.fields()[i].key()].contains_key(token),
        frame_at(out.fields()[i].postings_data(), image_map(out.fields()[i].postings_index())[token]) == Ok::<
            Seq<(Seq<u8>, u64)>,
            CodecError,
        >(listing(m.postings[out.fields()[i].key()][token])),
        fold_pairs(listing(m.postings[out.fields()[i].key()][token])) == m.postings[out.fields()[i].key()][token],
{
    let k = sorted_keys(m.postings)[i];
    assert(field_written(out.fields()[i], k, m.postings[k], m.lengths[k]));
    if !m.postings[k].contains_key(token) {
        lemma_postings_absent(m.postings[k], token);
    }
    lemma_postings_read_back(m.postings[k], token);
}

/// Two runs that write the same index write the same bytes: the files of
/// each field depend on the postings and lengths alone, and the average
/// lengths file on the averages alone.
pub proof fn lemma_files_determined(a: IndexOutput, b: IndexOutput, m: IndexModel, n_docs: usize)
    requires
        index_written(a, m, n_docs),
        index_written(b, m, n_docs),
    ensures
        a.stats() == b.stats(),
        a.fields().len() == b.fields().len(),
        forall|i: int|
            0 <= i < a.fields().len() ==> {
                &&& (#[trigger] a.fields()[i]).key() == b.fields()[i].key()
                &&& a.fields()[i].postings_data() == b.fields()[i].postings_data()
                &&& a.fields()[i].postings_index() == b.fields()[i].postings_index()
                &&& a.fields()[i].lengths_index() == b.fields()[i].lengths_index()
                &&& a.fields()[i].total_length() == b.fields()[i].total_length()
                &&& a.fields()[i].documents() == b.fields()[i].documents()
            },
        image_map(a.avg_lengths_index()) == image_map(b.avg_lengths_index()) ==> a.avg_lengths_index()
            == b.avg_lengths_index(),
{
    assert forall|i: int| 0 <= i < a.fields().len() implies {
        &&& (#[trigger] a.fields()[i]).key() == b.fields()[i].key()
        &&& a.fields()[i].postings_data() == b.fields()[i].postings_data()
        &&& a.fields()[i].postings_index() == b.fields()[i].postings_index()
        &&& a.fields()[i].lengths_index() == b.fields()[i].lengths_index()
        &&& a.fields()[i].total_length() == b.fields()[i].total_length()
        &&& a.fields()[i].documents() == b.fields()[i].documents()
    } by {
        let k = sorted_keys(m.postings)[i];
        assert(field_written(a.fields()[i], k, m.postings[k], m.lengths[k]));
        assert(field_written(b.fields()[i], k, m.postings[k], m.lengths[k]));
    }
}

} // verus!

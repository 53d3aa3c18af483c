//! The retriever: opens the files of an index and gathers, for a query
//! token, everything that scoring needs: the matching postings, the lengths
//! of the matched documents, the average lengths of the matched fields, the
//! document frequency and the number of documents.

use vstd::prelude::*;
use crate::codec::{fold_pairs, frame_at, read_frame, CodecError};
use crate::index_laws::{lemma_index_all_names, names, occurs};
use crate::indexer::{empty_index, field_written, index_all, index_written, keys_bytes, DocModel, FieldOutput, IndexModel, IndexOutput};
use crate::postings::{lemma_postings_absent, lemma_postings_read_back, postings_data, postings_positions, storable};
use crate::str_map::sorted_keys;
use crate::lex::bytes_of;
use crate::postings::entries_model;
use crate::stats::IndexStats;
use crate::str_map::{lemma_to_map_at, lemma_to_map_take, to_map, StrMap};
use crate::symbols::{image_entries, image_map, is_image, is_image_of, map_data, map_get, map_open};

verus! {

/// Why a retrieval failed.
#[derive(Clone, Copy, Debug, PartialEq, Eq, Structural)]
pub enum RetrievalError {
    /// A configured index key has no files.
    UnknownField,
    /// The `fst` crate refused to open a symbol table. It refuses none that
    /// an index run wrote, so this comes only to callers that hand over
    /// other bytes, against what `Retriever::new` requires.
    Unreadable,
    /// A token's offset points to a frame outside the data file.
    OutOfRange,
    /// A frame does not hold the encoding of an entry.
    Malformed,
    /// A matched document has no length.
    MissingLength,
    /// A matched field has no average length.
    MissingAverage,
}

/// The retrieval error that a codec error becomes.
pub open spec fn frame_error(e: CodecError) -> RetrievalError {
    match e {
        CodecError::OutOfRange => RetrievalError::OutOfRange,
        CodecError::Malformed => RetrievalError::Malformed,
    }
}

/// A text without the characters `c` at its end.
pub open spec fn without_trailing(text: Seq<char>, c: char) -> Seq<char>
    decreases text.len(),
{
    if text.len() > 0 && text.last() == c {
        without_trailing(text.drop_last(), c)
    } else {
        text
    }
}

/// A document identifier as it is handed out: without the NUL characters
/// that fill it up in the index.
pub open spec fn stripped(docid: Seq<char>) -> Seq<char> {
    without_trailing(docid, '\0')
}

/// Calls `str::trim_end_matches` with a character: the text without every
/// occurrence of the character at its end.
#[verifier::external_body]
fn trim_end<'a>(text: &'a str, c: char) -> (r: &'a str)
    ensures
        r@ == without_trailing(text@, c),
{
    text.trim_end_matches(c)
}

/// A document identifier of the index as it is handed out: without the NUL
/// characters at its end.
pub fn strip_docid(docid: &str) -> (r: String)
    ensures
        r@ == stripped(docid@),
{
    trim_end(docid, '\0').to_owned()
}

/// Stripping undoes padding: an identifier that does not itself end in NUL
/// comes back from the index as it went in.
pub proof fn lemma_strip_padded(docid: Seq<char>)
    requires
        bytes_of(docid).len() <= crate::indexer::MAX_DOCID_LENGTH,
        docid.len() == 0 || docid.last() != '\0',
    ensures
        stripped(crate::indexer::padded(docid)) == docid,
{
    let n = (crate::indexer::MAX_DOCID_LENGTH - bytes_of(docid).len()) as nat;
    lemma_strip_nuls(docid, n);
}

proof fn lemma_strip_nuls(docid: Seq<char>, n: nat)
    requires
        docid.len() == 0 || docid.last() != '\0',
    ensures
        without_trailing(docid + Seq::new(n, |i: int| '\0'), '\0') == docid,
    decreases n,
{
    let text = docid + Seq::new(n, |i: int| '\0');
    if n == 0 {
        assert(text =~= docid);
    } else {
        assert(text.last() == '\0');
        assert(text.drop_last() =~= docid + Seq::new((n - 1) as nat, |i: int| '\0'));
        lemma_strip_nuls(docid, (n - 1) as nat);
    }
}

/// The entry names a document.
pub open spec fn nonempty(entry: Map<Seq<u8>, u64>) -> bool {
    exists|d: Seq<u8>| entry.contains_key(d)
}

/// The documents that the matching postings name, over all fields.
pub open spec fn docids_of(found: Map<Seq<u8>, Map<Seq<u8>, u64>>) -> Set<Seq<u8>> {
    Set::new(|d: Seq<u8>| exists|k: Seq<u8>| found.contains_key(k) && #[trigger] found[k].contains_key(d))
}

/// What scoring needs to know of a query token.
pub struct TokenModel {
    /// For each field that holds the token, the frequency of the token in
    /// each document.
    pub postings: Map<Seq<u8>, Map<Seq<u8>, u64>>,
    /// For each such field and document, the length of the document.
    pub lengths: Map<Seq<u8>, Map<Seq<u8>, u64>>,
    /// For each such field, the bits of its average length.
    pub avg_lengths: Map<Seq<u8>, u64>,
    /// The number of documents that hold the token in some field.
    pub doc_frequency: nat,
    /// The number of documents in the index.
    pub n_docs: usize,
}

/// What scoring needs to know of a query token, as gathered from an index.
pub struct TokenMatch {
    /// For each field that holds the token, the frequency of the token in
    /// each document.
    pub postings: StrMap<StrMap<u64>>,
    /// For each such field and document, the length of the document.
    pub lengths: StrMap<StrMap<u64>>,
    /// For each such field, the bits of its average length.
    pub avg_lengths: StrMap<u64>,
    /// The number of documents that hold the token in some field.
    pub doc_frequency: u64,
    /// The number of documents in the index.
    pub n_docs: usize,
}

impl View for TokenMatch {
    type V = TokenModel;

    open spec fn view(&self) -> TokenModel {
        TokenModel {
            postings: entries_model(self.postings@),
            lengths: entries_model(self.lengths@),
            avg_lengths: self.avg_lengths@,
            doc_frequency: self.doc_frequency as nat,
            n_docs: self.n_docs,
        }
    }
}

/// The files of one field of an index, as bytes.
pub struct FieldFiles<'a> {
    /// The name of the field in the index.
    pub index_key: String,
    /// The symbol table from document identifiers to lengths.
    pub lengths_index: &'a [u8],
    /// The symbol table from tokens to offsets in the data file.
    pub postings_index: &'a [u8],
    /// The postings data file.
    pub postings_data: &'a [u8],
}

/// The files of the fields by index key; of two with the same key the
/// later one stands.
pub open spec fn files_by_key(files: Seq<FieldFiles>) -> Map<Seq<u8>, FieldFiles>
    decreases files.len(),
{
    if files.len() == 0 {
        Map::empty()
    } else {
        files_by_key(files.drop_last()).insert(bytes_of(files.last().index_key@), files.last())
    }
}

/// The bytes are those of the files of the field.
pub open spec fn shows(files: FieldFiles, field: FieldOutput) -> bool {
    &&& bytes_of(files.index_key@) == field.key()
    &&& files.lengths_index@ == field.lengths_index()
    &&& files.postings_index@ == field.postings_index()
    &&& files.postings_data@ == field.postings_data()
    &&& is_image(files.lengths_index@)
    &&& is_image(files.postings_index@)
}

/// One of the fields has the index key `k`.
pub open spec fn keyed(fields: Seq<FieldOutput>, k: Seq<u8>) -> bool {
    exists|j: int| 0 <= j < fields.len() && (#[trigger] fields[j]).key() == k
}

/// The retriever holds the files of `field` for the index key `k`.
pub open spec fn held_as(retriever: Retriever, k: Seq<u8>, field: FieldOutput) -> bool {
    &&& field.key() == k
    &&& retriever.lengths(k) == image_map(field.lengths_index())
    &&& retriever.positions(k) == image_map(field.postings_index())
    &&& retriever.data(k) == field.postings_data()
}

/// Every key of the files is the key of one of them, and each of them is
/// found under its key or gives way to a later one with the same key.
pub proof fn lemma_files_by_key(files: Seq<FieldFiles>, fields: Seq<FieldOutput>)
    requires
        files.len() == fields.len(),
        forall|j: int| 0 <= j < files.len() ==> shows(#[trigger] files[j], fields[j]),
    ensures
        forall|k: Seq<u8>| #[trigger]
            files_by_key(files).contains_key(k) ==> exists|j: int|
                0 <= j < files.len() && files_by_key(files)[k] == #[trigger] files[j] && bytes_of(
                    files[j].index_key@,
                ) == k,
        forall|j: int| 0 <= j < fields.len() ==> files_by_key(files).contains_key((#[trigger] fields[j]).key()),
    decreases files.len(),
{
    if files.len() > 0 {
        let front = files.drop_last();
        let n = files.len() - 1;
        lemma_files_by_key(front, fields.drop_last());
        assert forall|k: Seq<u8>| #[trigger] files_by_key(files).contains_key(k) implies exists|j: int|
            0 <= j < files.len() && files_by_key(files)[k] == #[trigger] files[j] && bytes_of(
                files[j].index_key@,
            ) == k by {
            if k == bytes_of(files.last().index_key@) {
                assert(files_by_key(files)[k] == files[n]);
            } else {
                assert(files_by_key(front).contains_key(k));
                let j = choose|j: int|
                    0 <= j < front.len() && files_by_key(front)[k] == #[trigger] front[j] && bytes_of(
                        front[j].index_key@,
                    ) == k;
                assert(files[j] == front[j]);
            }
        }
        assert forall|j: int| 0 <= j < fields.len() implies files_by_key(files).contains_key(
            (#[trigger] fields[j]).key(),
        ) by {
            if j < n {
                assert(fields.drop_last()[j] == fields[j]);
                assert(files_by_key(front).contains_key(fields.drop_last()[j].key()));
            } else {
                assert(shows(files[n], fields[n]));
            }
        }
    }
}

/// The opened files of one field.
struct FieldMaps<'a> {
    lengths_map: fst::Map<&'a [u8]>,
    postings_map: fst::Map<&'a [u8]>,
    postings_data: &'a [u8],
}

/// An opened index.
pub struct Retriever<'a> {
    index_keys: Vec<String>,
    fields: StrMap<FieldMaps<'a>>,
    avg_lengths_map: fst::Map<&'a [u8]>,
    index_stats: IndexStats,
}

impl<'a> Retriever<'a> {
    /// The bytes of the index keys that queries run over, in order.
    pub closed spec fn keys(&self) -> Seq<Seq<u8>> {
        keys_bytes(self.index_keys@)
    }

    /// Whether the index has files for a field.
    pub closed spec fn has_field(&self, key: Seq<u8>) -> bool {
        self.fields@.contains_key(key)
    }

    /// The length of each document of a field.
    pub closed spec fn lengths(&self, key: Seq<u8>) -> Map<Seq<u8>, u64> {
        image_map(map_data(self.fields@[key].lengths_map))
    }

    /// For each token of a field, the offset of its frame in the data file.
    pub closed spec fn positions(&self, key: Seq<u8>) -> Map<Seq<u8>, u64> {
        image_map(map_data(self.fields@[key].postings_map))
    }

    /// The postings data file of a field.
    pub closed spec fn data(&self, key: Seq<u8>) -> Seq<u8> {
        self.fields@[key].postings_data@
    }

    /// The bits of the average length of each field.
    pub closed spec fn averages(&self) -> Map<Seq<u8>, u64> {
        image_map(map_data(self.avg_lengths_map))
    }

    /// The statistics of the index.
    pub closed spec fn stats(&self) -> IndexStats {
        self.index_stats
    }

    /// Every symbol table is an image, and every index key has its files.
    pub closed spec fn wf(&self) -> bool {
        &&& self.fields.wf()
        &&& is_image(map_data(self.avg_lengths_map))
        &&& forall|i: int|
            0 <= i < self.fields.values().len() ==> is_image(
                map_data((#[trigger] self.fields.values()[i]).lengths_map),
            ) && is_image(map_data(self.fields.values()[i].postings_map))
        &&& forall|i: int| 0 <= i < self.keys().len() ==> self.fields@.contains_key(#[trigger] self.keys()[i])
    }

    #[verifier::type_invariant]
    closed spec fn inv(&self) -> bool {
        self.wf()
    }

    /// The postings of a token: for each index key, in order, whose field
    /// holds the token, the entry that is framed at the token's offset in
    /// the field's data file. A frame that cannot be read fails the lookup.
    pub open spec fn matching(&self, token: Seq<u8>, keys: Seq<Seq<u8>>) -> Result<
        Map<Seq<u8>, Map<Seq<u8>, u64>>,
        RetrievalError,
    >
        decreases keys.len(),
    {
        if keys.len() == 0 {
            Ok(Map::empty())
        } else {
            match self.matching(token, keys.drop_last()) {
                Err(e) => Err(e),
                Ok(found) => if self.has_field(keys.last()) && self.positions(keys.last()).contains_key(
                    token,
                ) {
                    match frame_at(self.data(keys.last()), self.positions(keys.last())[token]) {
                        Err(e) => Err(frame_error(e)),
                        Ok(entries) => Ok(found.insert(keys.last(), fold_pairs(entries))),
                    }
                } else {
                    Ok(found)
                },
            }
        }
    }

    /// Every document that the postings name has a length in its field.
    pub open spec fn all_have_lengths(&self, found: Map<Seq<u8>, Map<Seq<u8>, u64>>) -> bool {
        forall|k: Seq<u8>, d: Seq<u8>|
            found.contains_key(k) && #[trigger] found[k].contains_key(d) ==> self.has_field(k)
                && self.lengths(k).contains_key(d)
    }

    /// The lengths of the documents that the postings name, for each field
    /// that names a document.
    pub open spec fn lengths_for(&self, found: Map<Seq<u8>, Map<Seq<u8>, u64>>) -> Map<
        Seq<u8>,
        Map<Seq<u8>, u64>,
    > {
        Map::new(
            |k: Seq<u8>| found.contains_key(k) && nonempty(found[k]),
            |k: Seq<u8>| Map::new(|d: Seq<u8>| found[k].contains_key(d), |d: Seq<u8>| self.lengths(k)[d]),
        )
    }

    /// Every field of the postings has an average length.
    pub open spec fn all_have_averages(&self, found: Map<Seq<u8>, Map<Seq<u8>, u64>>) -> bool {
        forall|k: Seq<u8>| found.contains_key(k) ==> #[trigger] self.averages().contains_key(k)
    }

    /// The bits of the average length of each field of the postings.
    pub open spec fn averages_for(&self, found: Map<Seq<u8>, Map<Seq<u8>, u64>>) -> Map<Seq<u8>, u64> {
        Map::new(|k: Seq<u8>| found.contains_key(k), |k: Seq<u8>| self.averages()[k])
    }

    /// What scoring needs to know of a token: the matching postings, the
    /// lengths of their documents, the average lengths of their fields, the
    /// number of documents they name, and the number of documents in all.
    pub open spec fn token_match(&self, token: Seq<u8>) -> Result<TokenModel, RetrievalError> {
        match self.matching(token, self.keys()) {
            Err(e) => Err(e),
            Ok(found) => if !self.all_have_lengths(found) {
                Err(RetrievalError::MissingLength)
            } else if !self.all_have_averages(found) {
                Err(RetrievalError::MissingAverage)
            } else {
                Ok(
                    TokenModel {
                        postings: found,
                        lengths: self.lengths_for(found),
                        avg_lengths: self.averages_for(found),
                        doc_frequency: docids_of(found).len(),
                        n_docs: self.stats().n_docs,
                    },
                )
            },
        }
    }

    /// Opens an index from the bytes of its files. The symbol tables must
    /// be images that an index run wrote. It fails where an index key has
    /// no files among `files`.
    pub fn new(
        index_keys: Vec<String>,
        avg_lengths_index: &'a [u8],
        files: Vec<FieldFiles<'a>>,
        index_stats: IndexStats,
    ) -> (r: Result<Retriever<'a>, RetrievalError>)
        requires
            is_image(avg_lengths_index@),
            forall|i: int|
                0 <= i < files@.len() ==> is_image((#[trigger] files@[i]).lengths_index@) && is_image(
                    files@[i].postings_index@,
                ),
        ensures
            r is Ok <==> forall|i: int|
                0 <= i < index_keys@.len() ==> files_by_key(files@).contains_key(
                    #[trigger] keys_bytes(index_keys@)[i],
                ),
            r matches Err(e) ==> e == RetrievalError::UnknownField,
            r matches Ok(retriever) ==> {
                &&& retriever.wf()
                &&& retriever.keys() == keys_bytes(index_keys@)
                &&& retriever.stats() == index_stats
                &&& retriever.averages() == image_map(avg_lengths_index@)
                &&& forall|i: int|
                    0 <= i < index_keys@.len() ==> retriever.has_field(#[trigger] keys_bytes(index_keys@)[i])
                &&& forall|k: Seq<u8>| retriever.has_field(k) <==> files_by_key(files@).contains_key(k)
                &&& forall|k: Seq<u8>| #[trigger]
                    retriever.has_field(k) ==> {
                        &&& retriever.lengths(k) == image_map(files_by_key(files@)[k].lengths_index@)
                        &&& retriever.positions(k) == image_map(files_by_key(files@)[k].postings_index@)
                        &&& retriever.data(k) == files_by_key(files@)[k].postings_data@
                    }
            },
    {
        let avg_lengths_map = match map_open(avg_lengths_index) {
            Ok(map) => map,
            Err(_) => {
                return Err(RetrievalError::Unreadable);
            },
        };
        let mut fields: StrMap<FieldMaps<'a>> = StrMap::new();
        let ghost by_key = files_by_key(files@);
        let mut i: usize = 0;
        proof {
            assert(files@.take(0) =~= Seq::<FieldFiles>::empty());
        }
        while i < files.len()
            invariant
                i <= files@.len(),
                fields.wf(),
                forall|j: int|
                    0 <= j < files@.len() ==> is_image((#[trigger] files@[j]).lengths_index@) && is_image(
                        files@[j].postings_index@,
                    ),
                forall|k: Seq<u8>| fields@.contains_key(k) <==> files_by_key(files@.take(i as int)).contains_key(k),
                forall|k: Seq<u8>| #[trigger]
                    fields@.contains_key(k) ==> {
                        &&& map_data(fields@[k].lengths_map) == files_by_key(files@.take(i as int))[k].lengths_index@
                        &&& map_data(fields@[k].postings_map) == files_by_key(
                            files@.take(i as int),
                        )[k].postings_index@
                        &&& fields@[k].postings_data@ == files_by_key(files@.take(i as int))[k].postings_data@
                        &&& is_image(map_data(fields@[k].lengths_map))
                        &&& is_image(map_data(fields@[k].postings_map))
                    },
            decreases files@.len() - i,
        {
            let file = &files[i];
            proof {
                assert(files@.take(i + 1).drop_last() =~= files@.take(i as int));
                assert(files@.take(i + 1).last() == files@[i as int]);
            }
            let lengths_map = match map_open(file.lengths_index) {
                Ok(map) => map,
                Err(_) => {
                    return Err(RetrievalError::Unreadable);
                },
            };
            let postings_map = match map_open(file.postings_index) {
                Ok(map) => map,
                Err(_) => {
                    return Err(RetrievalError::Unreadable);
                },
            };
            fields.insert(
                file.index_key.clone(),
                FieldMaps { lengths_map, postings_map, postings_data: file.postings_data },
            );
            i += 1;
        }
        proof {
            assert(files@.take(files@.len() as int) =~= files@);
        }
        let mut j: usize = 0;
        while j < index_keys.len()
            invariant
                j <= index_keys@.len(),
                fields.wf(),
                by_key == files_by_key(files@),
                forall|k: Seq<u8>| fields@.contains_key(k) <==> by_key.contains_key(k),
                forall|t: int| 0 <= t < j ==> fields@.contains_key(#[trigger] keys_bytes(index_keys@)[t]),
            decreases index_keys@.len() - j,
        {
            if !fields.contains_key(index_keys[j].as_str()) {
                proof {
                    assert(!by_key.contains_key(keys_bytes(index_keys@)[j as int]));
                }
                return Err(RetrievalError::UnknownField);
            }
            j += 1;
        }
        proof {
            assert forall|t: int| 0 <= t < fields.values().len() implies is_image(
                map_data((#[trigger] fields.values()[t]).lengths_map),
            ) && is_image(map_data(fields.values()[t].postings_map)) by {
                lemma_to_map_at(fields.keys(), fields.values(), t);
                assert(fields@.contains_key(fields.keys()[t]));
            }
        }
        Ok(Retriever { index_keys, fields, avg_lengths_map, index_stats })
    }

    /// Opens an index that was just written and is still held in memory. It
    /// fails where an index key has no field in the index.
    pub fn open(output: &'a IndexOutput, index_keys: Vec<String>) -> (r: Result<
        Retriever<'a>,
        RetrievalError,
    >)
        ensures
            r is Ok <==> forall|i: int|
                0 <= i < index_keys@.len() ==> keyed(output.fields(), #[trigger] keys_bytes(index_keys@)[i]),
            r matches Err(e) ==> e == RetrievalError::UnknownField,
            r matches Ok(retriever) ==> {
                &&& retriever.wf()
                &&& retriever.keys() == keys_bytes(index_keys@)
                &&& retriever.stats() == output.stats()
                &&& retriever.averages() == image_map(output.avg_lengths_index())
                &&& forall|i: int|
                    0 <= i < index_keys@.len() ==> retriever.has_field(#[trigger] keys_bytes(index_keys@)[i])
                &&& forall|j: int|
                    0 <= j < output.fields().len() ==> retriever.has_field(
                        (#[trigger] output.fields()[j]).key(),
                    )
                &&& forall|k: Seq<u8>| #[trigger]
                    retriever.has_field(k) ==> exists|j: int|
                        0 <= j < output.fields().len() && #[trigger] held_as(retriever, k, output.fields()[j])
            },
    {
        let mut files: Vec<FieldFiles<'a>> = Vec::new();
        let n = output.field_count();
        let mut i: usize = 0;
        while i < n
            invariant
                i <= n,
                n == output.fields().len(),
                files@.len() == i,
                forall|j: int| 0 <= j < i ==> shows(#[trigger] files@[j], output.fields()[j]),
            decreases n - i,
        {
            let field = output.field(i);
            files.push(
                FieldFiles {
                    index_key: field.index_key().clone(),
                    lengths_index: field.lengths_index_bytes().as_slice(),
                    postings_index: field.postings_index_bytes().as_slice(),
                    postings_data: field.postings_data_bytes().as_slice(),
                },
            );
            i += 1;
        }
        let ghost shown = files@;
        proof {
            lemma_files_by_key(shown, output.fields());
            assert forall|k: Seq<u8>| files_by_key(shown).contains_key(k) <==> keyed(output.fields(), k) by {
                if files_by_key(shown).contains_key(k) {
                    let j = choose|j: int|
                        0 <= j < shown.len() && files_by_key(shown)[k] == #[trigger] shown[j] && bytes_of(
                            shown[j].index_key@,
                        ) == k;
                    assert(shows(shown[j], output.fields()[j]));
                    assert(output.fields()[j].key() == k);
                }
                if keyed(output.fields(), k) {
                    let j = choose|j: int|
                        0 <= j < output.fields().len() && (#[trigger] output.fields()[j]).key() == k;
                    assert(files_by_key(shown).contains_key(output.fields()[j].key()));
                }
            }
        }
        let r = Retriever::new(
            index_keys,
            output.avg_lengths_index_bytes().as_slice(),
            files,
            output.index_stats(),
        );
        proof {
            if r is Ok {
                let retriever = r->Ok_0;
                {
                    assert forall|k: Seq<u8>| #[trigger] retriever.has_field(k) implies exists|j: int|
                        0 <= j < output.fields().len() && #[trigger] held_as(
                            retriever,
                            k,
                            output.fields()[j],
                        ) by {
                        let j = choose|j: int|
                            0 <= j < shown.len() && files_by_key(shown)[k] == #[trigger] shown[j];
                        assert(shows(shown[j], output.fields()[j]));
                        assert(held_as(retriever, k, output.fields()[j]));
                    }
                }
            }
        }
        r
    }

    /// The statistics of the index.
    pub fn index_stats(&self) -> (stats: IndexStats)
        ensures
            stats == self.stats(),
    {
        self.index_stats
    }

    /// The offset of a token's frame in the data file of a field, if the
    /// field holds the token.
    pub fn get_position(&self, query_token: &str, index_key: &str) -> (r: Option<u64>)
        ensures
            r == if self.has_field(bytes_of(index_key@)) {
                self.positions(bytes_of(index_key@)).get(bytes_of(query_token@))
            } else {
                None
            },
    {
        proof {
            use_type_invariant(self);
        }
        match self.fields.find(index_key) {
            None => None,
            Some(at) => {
                let field = self.fields.value_at(at);
                proof {
                    let data = map_data(field.postings_map);
                    assert(is_image_of(data, image_entries(data)));
                }
                map_get(&field.postings_map, query_token)
            },
        }
    }

    /// The length of a document in a field, if the field has one for it.
    pub fn get_docid_length(&self, docid: &str, index_key: &str) -> (r: Option<u64>)
        ensures
            r == if self.has_field(bytes_of(index_key@)) {
                self.lengths(bytes_of(index_key@)).get(bytes_of(docid@))
            } else {
                None
            },
    {
        proof {
            use_type_invariant(self);
        }
        match self.fields.find(index_key) {
            None => None,
            Some(at) => {
                let field = self.fields.value_at(at);
                proof {
                    let data = map_data(field.lengths_map);
                    assert(is_image_of(data, image_entries(data)));
                }
                map_get(&field.lengths_map, docid)
            },
        }
    }

    /// The bits of the average length of a field, if the index has one.
    pub fn get_avg_length(&self, index_key: &str) -> (r: Option<u64>)
        ensures
            r == self.averages().get(bytes_of(index_key@)),
    {
        proof {
            use_type_invariant(self);
            let data = map_data(self.avg_lengths_map);
            assert(is_image_of(data, image_entries(data)));
        }
        map_get(&self.avg_lengths_map, index_key)
    }

    /// The entry of a token in a field, if the field holds the token.
    fn read_entry(&self, query_token: &str, index_key: &str) -> (r: Result<
        Option<StrMap<u64>>,
        RetrievalError,
    >)
        ensures
            match r {
                Ok(None) => !(self.has_field(bytes_of(index_key@)) && self.positions(
                    bytes_of(index_key@),
                ).contains_key(bytes_of(query_token@))),
                Ok(Some(entry)) => {
                    &&& self.has_field(bytes_of(index_key@))
                    &&& self.positions(bytes_of(index_key@)).contains_key(bytes_of(query_token@))
                    &&& frame_at(
                        self.data(bytes_of(index_key@)),
                        self.positions(bytes_of(index_key@))[bytes_of(query_token@)],
                    ) is Ok
                    &&& entry@ == fold_pairs(
                        frame_at(
                            self.data(bytes_of(index_key@)),
                            self.positions(bytes_of(index_key@))[bytes_of(query_token@)],
                        )->Ok_0,
                    )
                    &&& entry.wf()
                },
                Err(e) => {
                    &&& self.has_field(bytes_of(index_key@))
                    &&& self.positions(bytes_of(index_key@)).contains_key(bytes_of(query_token@))
                    &&& frame_at(
                        self.data(bytes_of(index_key@)),
                        self.positions(bytes_of(index_key@))[bytes_of(query_token@)],
                    ) is Err
                    &&& e == frame_error(
                        frame_at(
                            self.data(bytes_of(index_key@)),
                            self.positions(bytes_of(index_key@))[bytes_of(query_token@)],
                        )->Err_0,
                    )
                },
            },
    {
        proof {
            use_type_invariant(self);
        }
        match self.fields.find(index_key) {
            None => Ok(None),
            Some(at) => {
                let field = self.fields.value_at(at);
                proof {
                    let data = map_data(field.postings_map);
                    assert(is_image_of(data, image_entries(data)));
                }
                match map_get(&field.postings_map, query_token) {
                    None => Ok(None),
                    Some(start_pos) => match read_frame(field.postings_data, start_pos) {
                        Ok(entry) => {
                            proof {
                                use_type_invariant(&entry);
                            }
                            Ok(Some(entry))
                        },
                        Err(CodecError::OutOfRange) => Err(RetrievalError::OutOfRange),
                        Err(CodecError::Malformed) => Err(RetrievalError::Malformed),
                    },
                }
            },
        }
    }

    /// The postings of a token: for each field that holds the token, the
    /// frequency of the token in each document.
    pub fn get_matching_docids_postings(&self, query_token: &str) -> (r: Result<
        StrMap<StrMap<u64>>,
        RetrievalError,
    >)
        ensures
            match r {
                Ok(found) => self.matching(bytes_of(query_token@), self.keys()) == Ok::<
                    Map<Seq<u8>, Map<Seq<u8>, u64>>,
                    RetrievalError,
                >(entries_model(found@)) && found.wf(),
                Err(e) => self.matching(bytes_of(query_token@), self.keys()) == Err::<
                    Map<Seq<u8>, Map<Seq<u8>, u64>>,
                    RetrievalError,
                >(e),
            },
    {
        let mut matching_docids: StrMap<StrMap<u64>> = StrMap::new();
        let ghost token = bytes_of(query_token@);
        let ghost keys = self.keys();
        let mut i: usize = 0;
        proof {
            assert(keys.take(0) =~= Seq::<Seq<u8>>::empty());
            assert(entries_model(matching_docids@) =~= Map::<Seq<u8>, Map<Seq<u8>, u64>>::empty());
        }
        while i < self.index_keys.len()
            invariant
                i <= self.index_keys@.len(),
                keys == self.keys(),
                keys == keys_bytes(self.index_keys@),
                token == bytes_of(query_token@),
                matching_docids.wf(),
                self.matching(token, keys.take(i as int)) == Ok::<
                    Map<Seq<u8>, Map<Seq<u8>, u64>>,
                    RetrievalError,
                >(entries_model(matching_docids@)),
            decreases self.index_keys@.len() - i,
        {
            let index_key = &self.index_keys[i];
            proof {
                assert(keys.take(i + 1).drop_last() =~= keys.take(i as int));
                assert(keys.take(i + 1).last() == keys[i as int]);
            }
            match self.read_entry(query_token, index_key.as_str()) {
                Ok(None) => {},
                Ok(Some(postings)) => {
                    let ghost before = matching_docids@;
                    matching_docids.insert(index_key.clone(), postings);
                    proof {
                        assert(entries_model(matching_docids@) =~= entries_model(before).insert(
                            keys[i as int],
                            postings@,
                        ));
                    }
                },
                Err(e) => {
                    proof {
                        self.lemma_matching_fails(token, keys, i as int, e);
                    }
                    return Err(e);
                },
            }
            i += 1;
        }
        proof {
            assert(keys.take(self.index_keys@.len() as int) =~= keys);
        }
        Ok(matching_docids)
    }

    /// The lengths of the documents of one entry, or nothing where one of
    /// them has no length in the field.
    fn entry_lengths(&self, index_key: &str, postings: &StrMap<u64>) -> (r: Option<StrMap<u64>>)
        ensures
            match r {
                Some(lengths) => {
                    &&& forall|d: Seq<u8>| #[trigger]
                        postings@.contains_key(d) ==> self.has_field(bytes_of(index_key@))
                            && self.lengths(bytes_of(index_key@)).contains_key(d)
                    &&& lengths@ == Map::new(
                        |d: Seq<u8>| postings@.contains_key(d),
                        |d: Seq<u8>| self.lengths(bytes_of(index_key@))[d],
                    )
                    &&& lengths.wf()
                },
                None => exists|d: Seq<u8>| #[trigger]
                    postings@.contains_key(d) && !(self.has_field(bytes_of(index_key@)) && self.lengths(
                        bytes_of(index_key@),
                    ).contains_key(d)),
            },
    {
        let ghost k = bytes_of(index_key@);
        let ghost keys = postings.keys();
        let ghost values = postings.values();
        let n = postings.len();
        let mut lengths: StrMap<u64> = StrMap::new();
        let mut j: usize = 0;
        proof {
            assert(to_map(keys.take(0), values.take(0)) =~= Map::<Seq<u8>, u64>::empty());
            assert(lengths@ =~= Map::new(
                |d: Seq<u8>| to_map(keys.take(0), values.take(0)).contains_key(d),
                |d: Seq<u8>| self.lengths(k)[d],
            ));
        }
        while j < n
            invariant
                j <= n,
                n == keys.len(),
                postings.wf(),
                keys == postings.keys(),
                values == postings.values(),
                k == bytes_of(index_key@),
                lengths.wf(),
                forall|d: Seq<u8>| #[trigger]
                    to_map(keys.take(j as int), values.take(j as int)).contains_key(d) ==> self.has_field(k)
                        && self.lengths(k).contains_key(d),
                lengths@ == Map::new(
                    |d: Seq<u8>| to_map(keys.take(j as int), values.take(j as int)).contains_key(d),
                    |d: Seq<u8>| self.lengths(k)[d],
                ),
            decreases n - j,
        {
            let docid = postings.key_at(j);
            proof {
                lemma_to_map_take(keys, values, j as int);
                lemma_to_map_at(keys, values, j as int);
            }
            match self.get_docid_length(docid.as_str(), index_key) {
                Some(length) => {
                    lengths.insert(docid.clone(), length);
                    proof {
                        assert(lengths@ =~= Map::new(
                            |d: Seq<u8>| to_map(keys.take(j + 1), values.take(j + 1)).contains_key(d),
                            |d: Seq<u8>| self.lengths(k)[d],
                        ));
                    }
                },
                None => {
                    proof {
                        assert(postings@.contains_key(keys[j as int]));
                    }
                    return None;
                },
            }
            j += 1;
        }
        proof {
            assert(keys.take(n as int) =~= keys);
            assert(values.take(n as int) =~= values);
        }
        Some(lengths)
    }

    /// The lengths of the matched documents: for each field of the postings
    /// that names a document, the length of each of its documents. It fails
    /// where a document has no length in its field.
    pub fn get_lengths(&self, matching_docids: &StrMap<StrMap<u64>>) -> (r: Result<
        StrMap<StrMap<u64>>,
        RetrievalError,
    >)
        ensures
            r is Ok <==> self.all_have_lengths(entries_model(matching_docids@)),
            r matches Ok(lengths) ==> entries_model(lengths@) == self.lengths_for(
                entries_model(matching_docids@),
            ) && lengths.wf(),
            r matches Err(e) ==> e == RetrievalError::MissingLength,
    {
        let ghost keys = matching_docids.keys();
        let ghost values = matching_docids.values();
        let ghost found = entries_model(matching_docids@);
        let n = matching_docids.len();
        let mut lengths: StrMap<StrMap<u64>> = StrMap::new();
        let mut i: usize = 0;
        proof {
            assert(to_map(keys.take(0), values.take(0)) =~= Map::<Seq<u8>, StrMap<u64>>::empty());
            assert(entries_model(lengths@) =~= self.lengths_for(
                entries_model(to_map(keys.take(0), values.take(0))),
            ));
        }
        while i < n
            invariant
                i <= n,
                n == keys.len(),
                matching_docids.wf(),
                keys == matching_docids.keys(),
                values == matching_docids.values(),
                found == entries_model(matching_docids@),
                lengths.wf(),
                self.all_have_lengths(entries_model(to_map(keys.take(i as int), values.take(i as int)))),
                entries_model(lengths@) == self.lengths_for(
                    entries_model(to_map(keys.take(i as int), values.take(i as int))),
                ),
            decreases n - i,
        {
            let index_key = matching_docids.key_at(i);
            let postings = matching_docids.value_at(i);
            let ghost k = keys[i as int];
            let ghost done = entries_model(to_map(keys.take(i as int), values.take(i as int)));
            let ghost next = entries_model(to_map(keys.take(i + 1), values.take(i + 1)));
            proof {
                lemma_to_map_take(keys, values, i as int);
                lemma_to_map_at(keys, values, i as int);
                assert(next =~= done.insert(k, postings@));
                assert(found.contains_key(k) && found[k] == postings@);
            }
            match self.entry_lengths(index_key.as_str(), postings) {
                None => {
                    return Err(RetrievalError::MissingLength);
                },
                Some(entry) => {
                    let ghost before = lengths@;
                    if entry.len() > 0 {
                        proof {
                            entry.lemma_listing();
                            assert(entry.keys().contains(entry.keys()[0]));
                            assert(entry@.contains_key(entry.keys()[0]));
                            assert(postings@.contains_key(entry.keys()[0]));
                            assert(nonempty(postings@));
                        }
                        lengths.insert(index_key.clone(), entry);
                        proof {
                            assert(entries_model(lengths@) =~= entries_model(before).insert(k, entry@));
                            assert(entries_model(lengths@) =~= self.lengths_for(next));
                        }
                    } else {
                        proof {
                            entry.lemma_listing();
                            if nonempty(postings@) {
                                let d = choose|d: Seq<u8>| postings@.contains_key(d);
                                assert(entry@.contains_key(d));
                                assert(entry.keys().contains(d));
                            }
                            assert(entries_model(lengths@) =~= self.lengths_for(next));
                        }
                    }
                    proof {
                        assert(self.all_have_lengths(next));
                    }
                },
            }
            i += 1;
        }
        proof {
            assert(keys.take(n as int) =~= keys);
            assert(values.take(n as int) =~= values);
        }
        Ok(lengths)
    }

    /// The bits of the average length of each field of the postings. It
    /// fails where a field has no average length.
    pub fn get_avg_lengths(&self, matching_docids: &StrMap<StrMap<u64>>) -> (r: Result<
        StrMap<u64>,
        RetrievalError,
    >)
        ensures
            r is Ok <==> self.all_have_averages(entries_model(matching_docids@)),
            r matches Ok(averages) ==> averages@ == self.averages_for(entries_model(matching_docids@))
                && averages.wf(),
            r matches Err(e) ==> e == RetrievalError::MissingAverage,
    {
        let ghost keys = matching_docids.keys();
        let ghost values = matching_docids.values();
        let ghost found = entries_model(matching_docids@);
        let n = matching_docids.len();
        let mut avg_lengths: StrMap<u64> = StrMap::new();
        let mut i: usize = 0;
        proof {
            assert(to_map(keys.take(0), values.take(0)) =~= Map::<Seq<u8>, StrMap<u64>>::empty());
            assert(avg_lengths@ =~= self.averages_for(entries_model(to_map(keys.take(0), values.take(0)))));
        }
        while i < n
            invariant
                i <= n,
                n == keys.len(),
                matching_docids.wf(),
                keys == matching_docids.keys(),
                values == matching_docids.values(),
                found == entries_model(matching_docids@),
                avg_lengths.wf(),
                self.all_have_averages(entries_model(to_map(keys.take(i as int), values.take(i as int)))),
                avg_lengths@ == self.averages_for(
                    entries_model(to_map(keys.take(i as int), values.take(i as int))),
                ),
            decreases n - i,
        {
            let index_key = matching_docids.key_at(i);
            let ghost k = keys[i as int];
            let ghost done = entries_model(to_map(keys.take(i as int), values.take(i as int)));
            let ghost next = entries_model(to_map(keys.take(i + 1), values.take(i + 1)));
            proof {
                lemma_to_map_take(keys, values, i as int);
                lemma_to_map_at(keys, values, i as int);
                assert(next =~= done.insert(k, values[i as int]@));
                assert(found.contains_key(k));
            }
            match self.get_avg_length(index_key.as_str()) {
                None => {
                    return Err(RetrievalError::MissingAverage);
                },
                Some(bits) => {
                    avg_lengths.insert(index_key.clone(), bits);
                    proof {
                        assert(avg_lengths@ =~= self.averages_for(next));
                        assert(self.all_have_averages(next));
                    }
                },
            }
            i += 1;
        }
        proof {
            assert(keys.take(n as int) =~= keys);
            assert(values.take(n as int) =~= values);
        }
        Ok(avg_lengths)
    }

    /// The number of documents that the postings name, over all fields.
    pub fn get_doc_frequency(&self, matching_docids: &StrMap<StrMap<u64>>) -> (r: u64)
        ensures
            r == docids_of(entries_model(matching_docids@)).len(),
    {
        let ghost keys = matching_docids.keys();
        let ghost values = matching_docids.values();
        let n = matching_docids.len();
        let mut docs: StrMap<()> = StrMap::new();
        let mut i: usize = 0;
        proof {
            assert(to_map(keys.take(0), values.take(0)) =~= Map::<Seq<u8>, StrMap<u64>>::empty());
            assert(docs@.dom() =~= docids_of(entries_model(to_map(keys.take(0), values.take(0)))));
        }
        while i < n
            invariant
                i <= n,
                n == keys.len(),
                matching_docids.wf(),
                keys == matching_docids.keys(),
                values == matching_docids.values(),
                docs.wf(),
                docs@.dom() == docids_of(entries_model(to_map(keys.take(i as int), values.take(i as int)))),
            decreases n - i,
        {
            let postings_map = matching_docids.value_at(i);
            let m = postings_map.len();
            let ghost k = keys[i as int];
            let ghost done = entries_model(to_map(keys.take(i as int), values.take(i as int)));
            let ghost next = entries_model(to_map(keys.take(i + 1), values.take(i + 1)));
            let ghost ids = postings_map.keys();
            let ghost counts = postings_map.values();
            proof {
                lemma_to_map_take(keys, values, i as int);
                assert(next =~= done.insert(k, postings_map@));
                assert(!done.contains_key(k));
                assert(to_map(ids.take(0), counts.take(0)) =~= Map::<Seq<u8>, u64>::empty());
            }
            let mut j: usize = 0;
            while j < m
                invariant
                    j <= m,
                    m == ids.len(),
                    postings_map.wf(),
                    ids == postings_map.keys(),
                    counts == postings_map.values(),
                    docs.wf(),
                    forall|d: Seq<u8>|
                        docs@.contains_key(d) <==> (docids_of(done).contains(d) || to_map(
                            ids.take(j as int),
                            counts.take(j as int),
                        ).contains_key(d)),
                decreases m - j,
            {
                let ghost seen = docs@;
                let ghost part = to_map(ids.take(j as int), counts.take(j as int));
                let ghost more = to_map(ids.take(j + 1), counts.take(j + 1));
                proof {
                    lemma_to_map_take(ids, counts, j as int);
                }
                docs.insert(postings_map.key_at(j).clone(), ());
                proof {
                    assert(docs@ == seen.insert(ids[j as int], ()));
                    assert(more == part.insert(ids[j as int], counts[j as int]));
                    assert forall|d: Seq<u8>| docs@.contains_key(d) <==> (docids_of(done).contains(d)
                        || more.contains_key(d)) by {
                        assert(seen.contains_key(d) <==> (docids_of(done).contains(d) || part.contains_key(d)));
                    }
                }
                j += 1;
            }
            proof {
                assert(ids.take(m as int) =~= ids);
                assert(counts.take(m as int) =~= counts);
                assert forall|d: Seq<u8>| docs@.contains_key(d) <==> docids_of(next).contains(d) by {
                    if docids_of(next).contains(d) {
                        let f = choose|f: Seq<u8>| next.contains_key(f) && #[trigger] next[f].contains_key(d);
                        if f != k {
                            assert(done.contains_key(f) && done[f].contains_key(d));
                        }
                    }
                    if docids_of(done).contains(d) {
                        let f = choose|f: Seq<u8>| done.contains_key(f) && #[trigger] done[f].contains_key(d);
                        assert(next.contains_key(f) && next[f].contains_key(d));
                    }
                    if postings_map@.contains_key(d) {
                        assert(next.contains_key(k) && next[k].contains_key(d));
                    }
                }
                assert(docs@.dom() =~= docids_of(next));
            }
            i += 1;
        }
        proof {
            assert(keys.take(n as int) =~= keys);
            assert(values.take(n as int) =~= values);
            docs.lemma_len_is_size();
        }
        docs.len() as u64
    }

    /// Gathers what scoring needs to know of a query token: the matching
    /// postings, the lengths of the matched documents, the average lengths
    /// of the matched fields, the document frequency and the number of
    /// documents.
    pub fn retrieval_single_token(&self, query_token: &str) -> (r: Result<TokenMatch, RetrievalError>)
        ensures
            match r {
                Ok(found) => self.token_match(bytes_of(query_token@)) == Ok::<TokenModel, RetrievalError>(
                    found@,
                ),
                Err(e) => self.token_match(bytes_of(query_token@)) == Err::<TokenModel, RetrievalError>(e),
            },
    {
        let matching_docids_postings = match self.get_matching_docids_postings(query_token) {
            Ok(found) => found,
            Err(e) => {
                return Err(e);
            },
        };
        let lengths = match self.get_lengths(&matching_docids_postings) {
            Ok(lengths) => lengths,
            Err(e) => {
                return Err(e);
            },
        };
        let avg_lengths = match self.get_avg_lengths(&matching_docids_postings) {
            Ok(averages) => averages,
            Err(e) => {
                return Err(e);
            },
        };
        let doc_frequency = self.get_doc_frequency(&matching_docids_postings);
        Ok(
            TokenMatch {
                postings: matching_docids_postings,
                lengths,
                avg_lengths,
                doc_frequency,
                n_docs: self.index_stats.n_docs,
            },
        )
    }

    /// Gathers what scoring needs to know of each token of a query, in the
    /// order of the tokens. It fails where it fails for one of them.
    pub fn retrieval_multiple_tokens(&self, query_tokens: &Vec<String>) -> (r: Result<
        Vec<TokenMatch>,
        RetrievalError,
    >)
        ensures
            r is Ok <==> forall|i: int|
                0 <= i < query_tokens@.len() ==> self.token_match(
                    bytes_of((#[trigger] query_tokens@[i])@),
                ) is Ok,
            r matches Ok(found) ==> found@.len() == query_tokens@.len() && forall|i: int|
                0 <= i < found@.len() ==> self.token_match(bytes_of(query_tokens@[i]@)) == Ok::<
                    TokenModel,
                    RetrievalError,
                >((#[trigger] found@[i])@),
            r matches Err(e) ==> exists|i: int|
                0 <= i < query_tokens@.len() && self.token_match(bytes_of((#[trigger] query_tokens@[i])@))
                    == Err::<TokenModel, RetrievalError>(e) && forall|j: int|
                    0 <= j < i ==> self.token_match(bytes_of((#[trigger] query_tokens@[j])@)) is Ok,
    {
        let mut results: Vec<TokenMatch> = Vec::new();
        let mut i: usize = 0;
        while i < query_tokens.len()
            invariant
                i <= query_tokens@.len(),
                results@.len() == i,
                forall|j: int|
                    0 <= j < i ==> self.token_match(bytes_of((#[trigger] query_tokens@[j])@)) is Ok,
                forall|j: int|
                    0 <= j < i ==> self.token_match(bytes_of(query_tokens@[j]@)) == Ok::<
                        TokenModel,
                        RetrievalError,
                    >((#[trigger] results@[j])@),
            decreases query_tokens@.len() - i,
        {
            match self.retrieval_single_token(query_tokens[i].as_str()) {
                Ok(found) => {
                    results.push(found);
                },
                Err(e) => {
                    return Err(e);
                },
            }
            i += 1;
        }
        Ok(results)
    }

    /// A lookup that has failed for the first index keys fails for all.
    pub proof fn lemma_matching_fails(&self, token: Seq<u8>, keys: Seq<Seq<u8>>, i: int, e: RetrievalError)
        requires
            0 <= i < keys.len(),
            self.matching(token, keys.take(i + 1)) == Err::<
                Map<Seq<u8>, Map<Seq<u8>, u64>>,
                RetrievalError,
            >(e),
        ensures
            self.matching(token, keys) == Err::<Map<Seq<u8>, Map<Seq<u8>, u64>>, RetrievalError>(e),
        decreases keys.len() - i,
    {
        if i + 1 == keys.len() {
            assert(keys.take(i + 1) =~= keys);
        } else {
            assert(keys.drop_last().take(i + 1) =~= keys.take(i + 1));
            self.lemma_matching_fails(token, keys.drop_last(), i, e);
        }
    }

    /// A token that no field holds matches nothing.
    pub proof fn lemma_absent_token(&self, token: Seq<u8>, keys: Seq<Seq<u8>>)
        requires
            forall|i: int|
                0 <= i < keys.len() ==> !(self.has_field(#[trigger] keys[i]) && self.positions(
                    keys[i],
                ).contains_key(token)),
        ensures
            self.matching(token, keys) == Ok::<Map<Seq<u8>, Map<Seq<u8>, u64>>, RetrievalError>(
                Map::empty(),
            ),
        decreases keys.len(),
    {
        if keys.len() > 0 {
            assert forall|i: int| 0 <= i < keys.drop_last().len() implies !(self.has_field(
                #[trigger] keys.drop_last()[i],
            ) && self.positions(keys.drop_last()[i]).contains_key(token)) by {
                assert(keys.drop_last()[i] == keys[i]);
            }
            self.lemma_absent_token(token, keys.drop_last());
            assert(keys.last() == keys[keys.len() - 1]);
        }
    }

    /// A token that no field holds is no error: it matches nothing, and
    /// nothing is there to score.
    pub proof fn lemma_absent_token_match(&self, token: Seq<u8>)
        requires
            forall|i: int|
                0 <= i < self.keys().len() ==> !(self.has_field(#[trigger] self.keys()[i]) && self.positions(
                    self.keys()[i],
                ).contains_key(token)),
        ensures
            self.token_match(token) is Ok,
            self.token_match(token)->Ok_0.postings == Map::<Seq<u8>, Map<Seq<u8>, u64>>::empty(),
            self.token_match(token)->Ok_0.lengths == Map::<Seq<u8>, Map<Seq<u8>, u64>>::empty(),
            self.token_match(token)->Ok_0.avg_lengths == Map::<Seq<u8>, u64>::empty(),
            self.token_match(token)->Ok_0.doc_frequency == 0,
    {
        self.lemma_absent_token(token, self.keys());
        let found = Map::<Seq<u8>, Map<Seq<u8>, u64>>::empty();
        assert(self.lengths_for(found) =~= Map::<Seq<u8>, Map<Seq<u8>, u64>>::empty());
        assert(self.averages_for(found) =~= Map::<Seq<u8>, u64>::empty());
        assert(docids_of(found) =~= Set::<Seq<u8>>::empty());
    }
}

/// The postings that an index holds for a token: for each of the fields
/// that holds the token, the token's entry.
pub open spec fn token_postings(m: IndexModel, keys: Seq<Seq<u8>>, token: Seq<u8>) -> Map<
    Seq<u8>,
    Map<Seq<u8>, u64>,
> {
    Map::new(
        |k: Seq<u8>| keys.contains(k) && m.postings[k].contains_key(token),
        |k: Seq<u8>| m.postings[k][token],
    )
}

impl<'a> Retriever<'a> {
    /// The retriever reads the fields `keys` of the index `m`: it holds
    /// the files that were written for them.
    pub open spec fn reads(&self, m: IndexModel, keys: Seq<Seq<u8>>) -> bool {
        forall|i: int|
            0 <= i < keys.len() ==> {
                &&& self.has_field(#[trigger] keys[i])
                &&& storable(m.postings[keys[i]])
                &&& self.positions(keys[i]) == postings_positions(m.postings[keys[i]])
                &&& self.data(keys[i]) == postings_data(m.postings[keys[i]])
                &&& self.lengths(keys[i]) == m.lengths[keys[i]]
            }
    }

    /// Looking a token up in the files of an index gives the postings that
    /// the index holds for it: for each field that holds the token, the
    /// token's entry.
    pub proof fn lemma_matching_reads_index(&self, m: IndexModel, token: Seq<u8>, keys: Seq<Seq<u8>>)
        requires
            self.reads(m, keys),
        ensures
            self.matching(token, keys) == Ok::<Map<Seq<u8>, Map<Seq<u8>, u64>>, RetrievalError>(
                token_postings(m, keys, token),
            ),
        decreases keys.len(),
    {
        if keys.len() == 0 {
            assert(token_postings(m, keys, token) =~= Map::<Seq<u8>, Map<Seq<u8>, u64>>::empty());
        } else {
            let front = keys.drop_last();
            let k = keys.last();
            assert(keys[keys.len() - 1] == k);
            assert forall|i: int| 0 <= i < front.len() implies {
                &&& self.has_field(#[trigger] front[i])
                &&& storable(m.postings[front[i]])
                &&& self.positions(front[i]) == postings_positions(m.postings[front[i]])
                &&& self.data(front[i]) == postings_data(m.postings[front[i]])
                &&& self.lengths(front[i]) == m.lengths[front[i]]
            } by {
                assert(front[i] == keys[i]);
            }
            self.lemma_matching_reads_index(m, token, front);
            assert forall|f: Seq<u8>| keys.contains(f) <==> (front.contains(f) || f == k) by {
                if keys.contains(f) {
                    let j = keys.index_of(f);
                    if j < front.len() {
                        assert(front[j] == f);
                    }
                }
                if front.contains(f) {
                    let j = front.index_of(f);
                    assert(keys[j] == f);
                }
            }
            if m.postings[k].contains_key(token) {
                lemma_postings_read_back(m.postings[k], token);
                assert(token_postings(m, keys, token) =~= token_postings(m, front, token).insert(
                    k,
                    m.postings[k][token],
                ));
            } else {
                lemma_postings_absent(m.postings[k], token);
                assert(token_postings(m, keys, token) =~= token_postings(m, front, token));
            }
        }
    }

    /// Retrieval finds only documents that hold the token: a document that
    /// the lookup of a token in an index names for a field is one of the
    /// indexed documents, under its padded identifier, and holds the token
    /// in that field.
    pub proof fn lemma_retrieved_hold_token(
        &self,
        index_keys: Seq<Seq<u8>>,
        docs: Seq<Option<DocModel>>,
        token: Seq<u8>,
        f: Seq<u8>,
        d: Seq<u8>,
    )
        requires
            self.reads(index_all(empty_index(index_keys), index_keys, docs), self.keys()),
            forall|i: int| 0 <= i < self.keys().len() ==> index_keys.contains(#[trigger] self.keys()[i]),
            self.matching(token, self.keys()) is Ok,
            self.matching(token, self.keys())->Ok_0.contains_key(f),
            self.matching(token, self.keys())->Ok_0[f].contains_key(d),
        ensures
            occurs(docs, index_keys, f, token, d),
    {
        let m = index_all(empty_index(index_keys), index_keys, docs);
        self.lemma_matching_reads_index(m, token, self.keys());
        let i = self.keys().index_of(f);
        assert(index_keys.contains(self.keys()[i]));
        lemma_index_all_names(index_keys, docs, f, token, d);
    }
}

/// A retriever that holds the files that were written for an index reads
/// that index.
pub proof fn lemma_written_index_is_read(retriever: Retriever, out: IndexOutput, m: IndexModel, n_docs: usize)
    requires
        index_written(out, m, n_docs),
        forall|i: int| 0 <= i < retriever.keys().len() ==> retriever.has_field(#[trigger] retriever.keys()[i]),
        forall|k: Seq<u8>| #[trigger]
            retriever.has_field(k) ==> exists|j: int|
                0 <= j < out.fields().len() && #[trigger] held_as(retriever, k, out.fields()[j]),
    ensures
        retriever.reads(m, retriever.keys()),
{
    let keys = retriever.keys();
    assert forall|i: int| 0 <= i < keys.len() implies {
        &&& retriever.has_field(#[trigger] keys[i])
        &&& storable(m.postings[keys[i]])
        &&& retriever.positions(keys[i]) == postings_positions(m.postings[keys[i]])
        &&& retriever.data(keys[i]) == postings_data(m.postings[keys[i]])
        &&& retriever.lengths(keys[i]) == m.lengths[keys[i]]
    } by {
        let k = keys[i];
        assert(retriever.has_field(k));
        let j = choose|j: int| 0 <= j < out.fields().len() && #[trigger] held_as(retriever, k, out.fields()[j]);
        let sk = sorted_keys(m.postings)[j];
        assert(field_written(out.fields()[j], sk, m.postings[sk], m.lengths[sk]));
    }
}

} // verus!

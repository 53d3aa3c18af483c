//! The document reader: what of a JSON document becomes a document of the
//! index.
//!
//! A document is a JSON object with its identifier under `docid` and texts
//! under its field names. Of the fields, those that the reader is configured
//! for are taken over, each under its index key.

use vstd::prelude::*;
use crate::indexer::{DocModel, MAX_DOCID_LENGTH};
use crate::indexer::texts_of;
use crate::lex::bytes_of;
use crate::str_map::StrMap;

verus! {

/// The JSON value of the `serde_json` crate, of which only its wrappers
/// know anything.
#[verifier::external_type_specification]
#[verifier::external_body]
pub struct ExJsonValue(serde_json::Value);

/// The error of the `serde_json` crate.
#[verifier::external_type_specification]
#[verifier::external_body]
pub struct ExJsonError(serde_json::Error);

/// The members of the JSON value that `serde_json::from_str` reads from a
/// text, if the text is JSON: for each name, the text of the member where it
/// is a string and nothing where it is anything else. A value that is no
/// object has no members.
pub uninterp spec fn parsed_members(text: Seq<char>) -> Option<Map<Seq<char>, Option<Seq<char>>>>;

/// The members that `serde_json::Value::get` finds in a value by name: for
/// each name, the text of the member where it is a string and nothing
/// where it is anything else.
pub uninterp spec fn json_members(value: serde_json::Value) -> Map<Seq<char>, Option<Seq<char>>>;

/// The text that `serde_json::Value::as_str` finds in a value.
pub uninterp spec fn json_text(value: serde_json::Value) -> Option<Seq<char>>;

/// Why a document is not indexed.
#[derive(Clone, Copy, Debug, PartialEq, Eq, Structural)]
pub enum DocumentError {
    /// The text is not JSON.
    Malformed,
    /// The document has no member `docid`.
    MissingDocid,
    /// The member `docid` is not a string.
    DocidNotText,
    /// The identifier has more than `MAX_DOCID_LENGTH` bytes.
    DocidTooLong,
    /// A configured field of the document is not a string.
    FieldNotText,
}

/// Calls `serde_json::from_str` for a `serde_json::Value`. It succeeds
/// where the text is JSON, and the value then has the members that the text
/// spells out.
#[verifier::external_body]
fn parse_json(text: &str) -> (r: Result<serde_json::Value, serde_json::Error>)
    ensures
        r is Ok <==> parsed_members(text@) is Some,
        r matches Ok(value) ==> parsed_members(text@) == Some(json_members(value)),
{
    serde_json::from_str(text)
}

/// Calls `serde_json::Value::get` with a name: the member of that name where
/// the value is an object that has one.
#[verifier::external_body]
fn member<'a>(value: &'a serde_json::Value, name: &str) -> (r: Option<&'a serde_json::Value>)
    ensures
        match r {
            Some(found) => json_members(*value).contains_key(name@) && json_members(*value)[name@]
                == json_text(*found),
            None => !json_members(*value).contains_key(name@),
        },
{
    value.get(name)
}

/// Calls `serde_json::Value::as_str`: the text where the value is a string.
#[verifier::external_body]
fn as_text<'a>(value: &'a serde_json::Value) -> (r: Option<&'a str>)
    ensures
        match r {
            Some(text) => json_text(*value) == Some(text@),
            None => json_text(*value) is None,
        },
{
    value.as_str()
}

/// The name of the member that holds the identifier.
pub open spec fn docid_name() -> Seq<char> {
    "docid"@
}

/// The texts of the configured fields of a document, by index key. Where
/// two fields have the same index key, the later one of the configuration
/// stands. A configured field that the document has but that is no string
/// makes the document unreadable.
pub open spec fn fields_in(members: Map<Seq<char>, Option<Seq<char>>>, field_keys: Seq<(String, String)>) -> Result<
    Map<Seq<u8>, Seq<char>>,
    DocumentError,
>
    decreases field_keys.len(),
{
    if field_keys.len() == 0 {
        Ok(Map::empty())
    } else {
        match fields_in(members, field_keys.drop_last()) {
            Err(e) => Err(e),
            Ok(fields) => if !members.contains_key(field_keys.last().0@) {
                Ok(fields)
            } else {
                match members[field_keys.last().0@] {
                    None => Err(DocumentError::FieldNotText),
                    Some(text) => Ok(fields.insert(bytes_of(field_keys.last().1@), text)),
                }
            },
        }
    }
}

/// The document that the members of a JSON value stand for.
pub open spec fn document_in(members: Map<Seq<char>, Option<Seq<char>>>, field_keys: Seq<(String, String)>) -> Result<
    DocModel,
    DocumentError,
> {
    if !members.contains_key(docid_name()) {
        Err(DocumentError::MissingDocid)
    } else {
        match members[docid_name()] {
            None => Err(DocumentError::DocidNotText),
            Some(docid) => if bytes_of(docid).len() > MAX_DOCID_LENGTH {
                Err(DocumentError::DocidTooLong)
            } else {
                match fields_in(members, field_keys) {
                    Err(e) => Err(e),
                    Ok(fields) => Ok(DocModel { docid, fields }),
                }
            },
        }
    }
}

/// The document that a JSON text stands for.
pub open spec fn document_of(text: Seq<char>, field_keys: Seq<(String, String)>) -> Result<
    DocModel,
    DocumentError,
> {
    match parsed_members(text) {
        None => Err(DocumentError::Malformed),
        Some(members) => document_in(members, field_keys),
    }
}

/// What was read is the document `want`.
pub open spec fn reads_as(
    r: Result<(String, StrMap<String>), DocumentError>,
    want: Result<DocModel, DocumentError>,
) -> bool {
    match r {
        Ok(doc) => want == Ok::<DocModel, DocumentError>(
            DocModel { docid: doc.0@, fields: texts_of(doc.1@) },
        ),
        Err(e) => want == Err::<DocModel, DocumentError>(e),
    }
}

/// Reads the JSON documents of a directory. It says which fields of a
/// document are indexed, and under which index keys.
pub struct DocumentReader {
    field_keys: Vec<(String, String)>,
    docs_directory: String,
}

impl DocumentReader {
    /// The pairs of document field and index key.
    pub closed spec fn field_keys(&self) -> Seq<(String, String)> {
        self.field_keys@
    }

    /// The directory that holds the documents.
    pub closed spec fn docs_directory(&self) -> Seq<char> {
        self.docs_directory@
    }

    /// A reader of the directory `docs_directory` for the given pairs of
    /// document field and index key.
    pub fn new(field_keys: Vec<(String, String)>, docs_directory: String) -> (reader: Self)
        ensures
            reader.field_keys() == field_keys@,
            reader.docs_directory() == docs_directory@,
    {
        DocumentReader { field_keys, docs_directory }
    }

    /// The directory that holds the documents.
    pub fn directory(&self) -> (directory: &String)
        ensures
            directory@ == self.docs_directory(),
    {
        &self.docs_directory
    }

    /// Reads a document from the contents of its file. The document is
    /// refused where the contents are not JSON, where there is no `docid`
    /// or it is no string or has more than `MAX_DOCID_LENGTH` bytes, and
    /// where a configured field is no string.
    pub fn process_json_file(&self, contents: &str) -> (r: Result<(String, StrMap<String>), DocumentError>)
        ensures
            reads_as(r, document_of(contents@, self.field_keys())),
    {
        match parse_json(contents) {
            Err(_) => Err(DocumentError::Malformed),
            Ok(json) => self.process_json_value(&json),
        }
    }

    /// Reads a document from a JSON value.
    pub fn process_json_value(&self, json: &serde_json::Value) -> (r: Result<
        (String, StrMap<String>),
        DocumentError,
    >)
        ensures
            reads_as(r, document_in(json_members(*json), self.field_keys())),
            forall|docid: Seq<char>|
                json_members(*json).contains_key(docid_name()) && json_members(*json)[docid_name()] == Some(
                    docid,
                ) ==> (r == Err::<(String, StrMap<String>), DocumentError>(DocumentError::DocidTooLong)
                    <==> bytes_of(docid).len() > MAX_DOCID_LENGTH),
    {
        let docid_json_value = match member(json, "docid") {
            None => {
                return Err(DocumentError::MissingDocid);
            },
            Some(value) => value,
        };
        let docid = match as_text(docid_json_value) {
            None => {
                return Err(DocumentError::DocidNotText);
            },
            Some(text) => text,
        };
        if docid.as_bytes().len() > MAX_DOCID_LENGTH {
            return Err(DocumentError::DocidTooLong);
        }
        let mut fields_text: StrMap<String> = StrMap::new();
        let ghost keys = self.field_keys@;
        let ghost members = json_members(*json);
        let mut i: usize = 0;
        proof {
            assert(keys.take(0) =~= Seq::<(String, String)>::empty());
            assert(texts_of(fields_text@) =~= Map::<Seq<u8>, Seq<char>>::empty());
        }
        while i < self.field_keys.len()
            invariant
                i <= self.field_keys@.len(),
                keys == self.field_keys@,
                members == json_members(*json),
                members.contains_key(docid_name()),
                members[docid_name()] == Some(docid@),
                bytes_of(docid@).len() <= MAX_DOCID_LENGTH,
                fields_in(members, keys.take(i as int)) == Ok::<Map<Seq<u8>, Seq<char>>, DocumentError>(
                    texts_of(fields_text@),
                ),
            decreases self.field_keys@.len() - i,
        {
            let field_key = &self.field_keys[i].0;
            let index_key = &self.field_keys[i].1;
            proof {
                assert(keys.take(i + 1).drop_last() =~= keys.take(i as int));
                assert(keys.take(i + 1).last() == keys[i as int]);
            }
            match member(json, field_key.as_str()) {
                None => {},
                Some(value) => match as_text(value) {
                    None => {
                        proof {
                            lemma_fields_fail(members, keys, i as int);
                        }
                        return Err(DocumentError::FieldNotText);
                    },
                    Some(text) => {
                        let ghost before = fields_text@;
                        fields_text.insert(index_key.clone(), text.to_owned());
                        proof {
                            assert(texts_of(fields_text@) =~= texts_of(before).insert(
                                bytes_of(index_key@),
                                text@,
                            ));
                        }
                    },
                },
            }
            i += 1;
        }
        proof {
            assert(keys.take(self.field_keys@.len() as int) =~= keys);
        }
        Ok((docid.to_owned(), fields_text))
    }
}

/// Once a field has made a document unreadable, it stays so whatever
/// fields follow.
proof fn lemma_fields_fail(members: Map<Seq<char>, Option<Seq<char>>>, keys: Seq<(String, String)>, i: int)
    requires
        0 <= i < keys.len(),
        fields_in(members, keys.take(i + 1)) == Err::<Map<Seq<u8>, Seq<char>>, DocumentError>(
            DocumentError::FieldNotText,
        ),
    ensures
        fields_in(members, keys) == Err::<Map<Seq<u8>, Seq<char>>, DocumentError>(
            DocumentError::FieldNotText,
        ),
    decreases keys.len() - i,
{
    if i + 1 == keys.len() {
        assert(keys.take(i + 1) =~= keys);
    } else {
        assert(keys.drop_last().take(i + 1) =~= keys.take(i + 1));
        lemma_fields_fail(members, keys.drop_last(), i);
    }
}

} // verus!

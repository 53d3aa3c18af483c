use bm25f::document_reader::{DocumentError, DocumentReader};
use bm25f::str_map::StrMap;

fn reader() -> DocumentReader {
    DocumentReader::new(
        vec![
            ("title".to_string(), "title_index".to_string()),
            ("text".to_string(), "body_index".to_string()),
        ],
        "./documents".to_string(),
    )
}

fn listed(fields: &StrMap<String>) -> Vec<(String, String)> {
    (0..fields.len()).map(|i| (fields.key_at(i).clone(), fields.value_at(i).clone())).collect()
}

fn read(contents: &str) -> Result<(String, Vec<(String, String)>), DocumentError> {
    reader().process_json_file(contents).map(|(docid, fields)| (docid, listed(&fields)))
}

#[test]
fn reader_keeps_its_directory() {
    assert_eq!(reader().directory(), "./documents");
}

#[test]
fn document_is_read_with_its_fields_under_their_index_keys() {
    let doc = read(r#"{"docid": "A", "title": "Cats", "text": "cat dog cat", "other": "x"}"#);
    assert_eq!(
        doc,
        Ok((
            "A".to_string(),
            vec![
                ("body_index".to_string(), "cat dog cat".to_string()),
                ("title_index".to_string(), "Cats".to_string())
            ]
        ))
    );
}

#[test]
fn fields_that_a_document_lacks_are_left_out() {
    assert_eq!(
        read(r#"{"docid": "A", "text": ""}"#),
        Ok(("A".to_string(), vec![("body_index".to_string(), "".to_string())]))
    );
    assert_eq!(read(r#"{"docid": "A"}"#), Ok(("A".to_string(), vec![])));
}

#[test]
fn later_field_of_the_configuration_stands_under_a_shared_index_key() {
    let reader = DocumentReader::new(
        vec![("a".to_string(), "k".to_string()), ("b".to_string(), "k".to_string())],
        "d".to_string(),
    );
    let (_, fields) = reader.process_json_file(r#"{"docid": "A", "b": "second", "a": "first"}"#).unwrap();
    assert_eq!(listed(&fields), vec![("k".to_string(), "second".to_string())]);
}

#[test]
fn text_that_is_not_json_is_refused() {
    assert_eq!(read("not json"), Err(DocumentError::Malformed));
    assert_eq!(read(r#"{"docid": "A""#), Err(DocumentError::Malformed));
    assert_eq!(read(""), Err(DocumentError::Malformed));
}

#[test]
fn document_without_docid_is_refused() {
    assert_eq!(read(r#"{"text": "cat"}"#), Err(DocumentError::MissingDocid));
    assert_eq!(read(r#"["docid"]"#), Err(DocumentError::MissingDocid));
    assert_eq!(read("17"), Err(DocumentError::MissingDocid));
}

#[test]
fn docid_that_is_no_string_is_refused() {
    assert_eq!(read(r#"{"docid": 17}"#), Err(DocumentError::DocidNotText));
    assert_eq!(read(r#"{"docid": null}"#), Err(DocumentError::DocidNotText));
}

#[test]
fn field_that_is_no_string_is_refused() {
    assert_eq!(read(r#"{"docid": "A", "text": 5}"#), Err(DocumentError::FieldNotText));
    assert_eq!(read(r#"{"docid": "A", "other": 5}"#), Ok(("A".to_string(), vec![])));
}

#[test]
fn docid_of_the_largest_length_is_accepted() {
    let docid = "d".repeat(32);
    let doc = read(&format!(r#"{{"docid": "{}"}}"#, docid));
    assert_eq!(doc, Ok((docid, vec![])));
}

#[test]
fn docid_one_byte_too_long_is_refused() {
    let docid = "d".repeat(33);
    assert_eq!(read(&format!(r#"{{"docid": "{}"}}"#, docid)), Err(DocumentError::DocidTooLong));
}

#[test]
fn docid_length_is_counted_in_bytes() {
    let fits = "é".repeat(16);
    assert_eq!(read(&format!(r#"{{"docid": "{}"}}"#, fits)), Ok((fits, vec![])));
    let too_long = format!("{}a", "é".repeat(16));
    assert_eq!(read(&format!(r#"{{"docid": "{}"}}"#, too_long)), Err(DocumentError::DocidTooLong));
}

#[test]
fn too_long_docid_is_refused_before_the_fields_are_looked_at() {
    let docid = "d".repeat(40);
    assert_eq!(
        read(&format!(r#"{{"docid": "{}", "text": 5}}"#, docid)),
        Err(DocumentError::DocidTooLong)
    );
}

#[test]
fn document_is_read_from_a_parsed_value() {
    let value: serde_json::Value = serde_json::from_str(r#"{"docid": "A", "title": "T"}"#).unwrap();
    let (docid, fields) = reader().process_json_value(&value).unwrap();
    assert_eq!(docid, "A");
    assert_eq!(listed(&fields), vec![("title_index".to_string(), "T".to_string())]);
    let no_object = serde_json::Value::String("docid".to_string());
    assert_eq!(reader().process_json_value(&no_object).err(), Some(DocumentError::MissingDocid));
}

#[test]
fn escapes_in_json_strings_are_resolved() {
    assert_eq!(
        read(r#"{"docid": "AB", "text": "café\n"}"#),
        Ok(("AB".to_string(), vec![("body_index".to_string(), "café\n".to_string())]))
    );
}

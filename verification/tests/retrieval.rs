use std::collections::HashMap;

use bm25f::indexer::{pad_docid, IndexOutput, Indexer};
use bm25f::lengths::Lengths;
use bm25f::postings::Postings;
use bm25f::retrieval::{strip_docid, FieldFiles, RetrievalError, Retriever, TokenMatch};
use bm25f::stats::IndexStats;
use bm25f::str_map::StrMap;

type Doc = Option<(String, StrMap<String>)>;

fn mean(total: u128, documents: usize) -> u64 {
    ((total as f64) / (documents as f64)).to_bits()
}

fn doc(docid: &str, fields: &[(&str, &str)]) -> Doc {
    let mut texts: StrMap<String> = StrMap::new();
    for (key, text) in fields {
        texts.insert(key.to_string(), text.to_string());
    }
    Some((docid.to_string(), texts))
}

fn cat_dog() -> IndexOutput {
    Indexer::new(vec![("body".to_string(), "body".to_string())]).index(
        vec![doc("A", &[("body", "cat dog cat")]), doc("B", &[("body", "dog")])],
        mean,
    )
}

fn two_fields() -> IndexOutput {
    Indexer::new(vec![
        ("title".to_string(), "title".to_string()),
        ("text".to_string(), "body".to_string()),
    ])
    .index(
        vec![
            doc("A", &[("title", "Cat"), ("body", "cat dog cat")]),
            doc("B", &[("body", "dog")]),
            doc("C", &[("title", "Dog emu"), ("body", "emu")]),
        ],
        mean,
    )
}

fn body_keys() -> Vec<String> {
    vec!["body".to_string()]
}

fn entry(map: &StrMap<u64>) -> Vec<(String, u64)> {
    (0..map.len()).map(|i| (strip_docid(map.key_at(i)), *map.value_at(i))).collect()
}

fn by_field(map: &StrMap<StrMap<u64>>) -> Vec<(String, Vec<(String, u64)>)> {
    (0..map.len()).map(|i| (map.key_at(i).clone(), entry(map.value_at(i)))).collect()
}

fn named(pairs: &[(&str, &[(&str, u64)])]) -> Vec<(String, Vec<(String, u64)>)> {
    pairs
        .iter()
        .map(|(field, e)| (field.to_string(), e.iter().map(|(d, n)| (d.to_string(), *n)).collect()))
        .collect()
}

fn params(value: f64) -> HashMap<String, f64> {
    [("body".to_string(), value), ("title".to_string(), value)].into_iter().collect()
}

fn scores(found: &TokenMatch, k1: f64, b: f64, weights: &HashMap<String, f64>) -> HashMap<String, f64> {
    let idf = (found.n_docs as f64) / (found.doc_frequency as f64);
    let mut doc_scores: HashMap<String, f64> = HashMap::new();
    for i in 0..found.postings.len() {
        let field = found.postings.key_at(i);
        let weight = weights[field];
        let weighted_avg = weight * f64::from_bits(*found.avg_lengths.get(field).unwrap());
        let postings = found.postings.value_at(i);
        for j in 0..postings.len() {
            let docid = postings.key_at(j);
            let new_tf = weight * (*postings.value_at(j) as f64);
            let mut doc_len = 0.0;
            for l in 0..found.lengths.len() {
                if let Some(length) = found.lengths.value_at(l).get(docid) {
                    doc_len += weights[found.lengths.key_at(l)] * (*length as f64);
                }
            }
            let field_score = (new_tf * (k1 + 1.0)) / (k1 * ((1.0 - b) + b * (doc_len / weighted_avg) + new_tf));
            *doc_scores.entry(docid.clone()).or_insert(0.0) += field_score;
        }
    }
    doc_scores.into_iter().map(|(docid, score)| (strip_docid(&docid), idf * score)).collect()
}

fn ranked(retriever: &Retriever, query: &[&str]) -> Vec<(String, f64)> {
    let tokens: Vec<String> = query.iter().map(|t| t.to_string()).collect();
    let mut merged: HashMap<String, f64> = HashMap::new();
    for found in retriever.retrieval_multiple_tokens(&tokens).unwrap() {
        for (docid, score) in scores(&found, 1.2, 0.75, &params(1.0)) {
            *merged.entry(docid).or_insert(0.0) += score;
        }
    }
    let mut ordered: Vec<(String, f64)> = merged.into_iter().collect();
    ordered.sort_by(|a, b| b.1.total_cmp(&a.1));
    ordered
}

#[test]
fn trailing_nuls_are_stripped_from_docids() {
    assert_eq!(strip_docid("A\0\0\0"), "A");
    assert_eq!(strip_docid("A\0B\0"), "A\0B");
    assert_eq!(strip_docid("\0\0"), "");
    assert_eq!(strip_docid("plain"), "plain");
    assert_eq!(strip_docid(""), "");
}

#[test]
fn stripping_undoes_padding() {
    for docid in ["A", "doc-17", "éé", "", "x".repeat(32).as_str()] {
        assert_eq!(strip_docid(&pad_docid(docid)), docid);
    }
}

#[test]
fn opened_index_knows_its_statistics() {
    let out = cat_dog();
    let retriever = Retriever::open(&out, body_keys()).unwrap();
    assert_eq!(retriever.index_stats(), IndexStats { n_docs: 2 });
}

#[test]
fn opening_fails_for_an_index_key_without_files() {
    let out = cat_dog();
    let r = Retriever::open(&out, vec!["body".to_string(), "title".to_string()]);
    assert_eq!(r.err(), Some(RetrievalError::UnknownField));
}

#[test]
fn matching_postings_are_read_from_the_data_file() {
    let out = cat_dog();
    let retriever = Retriever::open(&out, body_keys()).unwrap();
    let cat = retriever.get_matching_docids_postings("cat").unwrap();
    assert_eq!(by_field(&cat), named(&[("body", &[("A", 2)])]));
    let dog = retriever.get_matching_docids_postings("dog").unwrap();
    assert_eq!(by_field(&dog), named(&[("body", &[("A", 1), ("B", 1)])]));
}

#[test]
fn token_of_no_field_matches_nothing() {
    let out = cat_dog();
    let retriever = Retriever::open(&out, body_keys()).unwrap();
    assert_eq!(retriever.get_matching_docids_postings("zzzz").unwrap().len(), 0);
    let found = retriever.retrieval_single_token("zzzz").unwrap();
    assert_eq!(found.postings.len(), 0);
    assert_eq!(found.lengths.len(), 0);
    assert_eq!(found.avg_lengths.len(), 0);
    assert_eq!(found.doc_frequency, 0);
    assert_eq!(found.n_docs, 2);
    assert!(scores(&found, 1.2, 0.75, &params(1.0)).is_empty());
    assert!(ranked(&retriever, &["zzzz"]).is_empty());
}

#[test]
fn positions_lengths_and_averages_are_looked_up() {
    let out = cat_dog();
    let retriever = Retriever::open(&out, body_keys()).unwrap();
    assert_eq!(retriever.get_position("cat", "body"), Some(0));
    assert_eq!(retriever.get_position("dog", "body"), Some(64));
    assert_eq!(retriever.get_position("emu", "body"), None);
    assert_eq!(retriever.get_position("cat", "title"), None);
    assert_eq!(retriever.get_docid_length(&pad_docid("A"), "body"), Some(3));
    assert_eq!(retriever.get_docid_length(&pad_docid("B"), "body"), Some(1));
    assert_eq!(retriever.get_docid_length("A", "body"), None);
    assert_eq!(retriever.get_docid_length(&pad_docid("A"), "title"), None);
    assert_eq!(retriever.get_avg_length("body").map(f64::from_bits), Some(2.0));
    assert_eq!(retriever.get_avg_length("title"), None);
}

#[test]
fn single_token_gathers_what_scoring_needs() {
    let out = two_fields();
    let retriever = Retriever::open(&out, vec!["title".to_string(), "body".to_string()]).unwrap();
    let found = retriever.retrieval_single_token("dog").unwrap();
    assert_eq!(by_field(&found.postings), named(&[("body", &[("A", 1), ("B", 1)]), ("title", &[("C", 1)])]));
    assert_eq!(by_field(&found.lengths), named(&[("body", &[("A", 3), ("B", 1)]), ("title", &[("C", 2)])]));
    assert_eq!(found.avg_lengths.get("body").map(|b| f64::from_bits(*b)), Some(5.0 / 3.0));
    assert_eq!(found.avg_lengths.get("title").map(|b| f64::from_bits(*b)), Some(1.5));
    assert_eq!(found.doc_frequency, 3);
    assert_eq!(found.n_docs, 3);
}

#[test]
fn document_frequency_counts_each_document_once() {
    let out = two_fields();
    let retriever = Retriever::open(&out, vec!["title".to_string(), "body".to_string()]).unwrap();
    let cat = retriever.get_matching_docids_postings("cat").unwrap();
    assert_eq!(by_field(&cat), named(&[("body", &[("A", 2)]), ("title", &[("A", 1)])]));
    assert_eq!(retriever.get_doc_frequency(&cat), 1);
    let emu = retriever.get_matching_docids_postings("emu").unwrap();
    assert_eq!(retriever.get_doc_frequency(&emu), 1);
    let dog = retriever.get_matching_docids_postings("dog").unwrap();
    assert_eq!(retriever.get_doc_frequency(&dog), 3);
    assert_eq!(retriever.get_doc_frequency(&StrMap::new()), 0);
}

#[test]
fn only_the_configured_fields_are_searched() {
    let out = two_fields();
    let retriever = Retriever::open(&out, vec!["title".to_string()]).unwrap();
    let found = retriever.retrieval_single_token("dog").unwrap();
    assert_eq!(by_field(&found.postings), named(&[("title", &[("C", 1)])]));
    assert_eq!(found.doc_frequency, 1);
}

#[test]
fn query_cat_scores_only_document_a() {
    let out = cat_dog();
    let retriever = Retriever::open(&out, body_keys()).unwrap();
    let found = retriever.retrieval_single_token("cat").unwrap();
    assert_eq!(found.doc_frequency, 1);
    assert_eq!((found.n_docs as f64) / (found.doc_frequency as f64), 2.0);
    let scored = scores(&found, 1.2, 0.75, &params(1.0));
    assert_eq!(scored.len(), 1);
    assert!(!scored.contains_key("B"));
    let expected = 2.0 * ((2.0 * 2.2) / (1.2 * (0.25 + 0.75 * (3.0 / 2.0) + 2.0)));
    assert_eq!(scored["A"], expected);
    assert!(scored["A"] > 0.0);
    let ranking = ranked(&retriever, &["cat"]);
    assert_eq!(ranking.len(), 1);
    assert_eq!(ranking[0].0, "A");
}

#[test]
fn query_cat_dog_ranks_a_above_b() {
    let out = cat_dog();
    let retriever = Retriever::open(&out, body_keys()).unwrap();
    let ranking = ranked(&retriever, &["cat", "dog"]);
    assert_eq!(ranking.len(), 2);
    assert_eq!(ranking[0].0, "A");
    assert_eq!(ranking[1].0, "B");
    assert!(ranking[0].1 > ranking[1].1);
    assert!(ranking[1].1 > 0.0);
}

#[test]
fn retrieval_names_only_documents_that_hold_a_query_token() {
    let out = two_fields();
    let retriever = Retriever::open(&out, vec!["title".to_string(), "body".to_string()]).unwrap();
    let holders: HashMap<&str, Vec<&str>> =
        [("cat", vec!["A"]), ("dog", vec!["A", "B", "C"]), ("emu", vec!["C"]), ("yak", vec![])].into_iter().collect();
    for (token, expected) in holders {
        let mut names: Vec<String> = ranked(&retriever, &[token]).into_iter().map(|(d, _)| d).collect();
        names.sort();
        assert_eq!(names, expected);
    }
}

#[test]
fn multiple_tokens_are_gathered_in_order() {
    let out = cat_dog();
    let retriever = Retriever::open(&out, body_keys()).unwrap();
    let tokens = vec!["dog".to_string(), "zzzz".to_string(), "cat".to_string()];
    let found = retriever.retrieval_multiple_tokens(&tokens).unwrap();
    assert_eq!(found.len(), 3);
    assert_eq!(found[0].doc_frequency, 2);
    assert_eq!(found[1].doc_frequency, 0);
    assert_eq!(found[2].doc_frequency, 1);
    assert_eq!(retriever.retrieval_multiple_tokens(&vec![]).unwrap().len(), 0);
}

fn field_bytes(postings: &[(&str, &str)], lengths: &[(&str, u64)]) -> (Vec<u8>, Vec<u8>, Vec<u8>) {
    let mut p = Postings::new("body".to_string());
    for (docid, token) in postings {
        p.add_token_to_docid(&docid.to_string(), token);
    }
    let mut l = Lengths::new("body".to_string());
    for (docid, length) in lengths {
        l.add_length(docid.to_string(), *length);
    }
    let files = p.write_postings();
    (files.data, files.index, l.write_lengths().index)
}

fn averages(fields: &[(&str, f64)]) -> Vec<u8> {
    let mut a = bm25f::avg_lengths::Avglengths::new();
    for (field, average) in fields {
        a.add_avg_length(field.to_string(), average.to_bits());
    }
    a.write_avg_lengths()
}

fn open<'a>(data: &'a [u8], index: &'a [u8], lengths: &'a [u8], averages: &'a [u8]) -> Retriever<'a> {
    let files = vec![FieldFiles {
        index_key: "body".to_string(),
        lengths_index: lengths,
        postings_index: index,
        postings_data: data,
    }];
    Retriever::new(body_keys(), averages, files, IndexStats { n_docs: 5 }).unwrap()
}

#[test]
fn index_is_opened_from_the_bytes_of_its_files() {
    let (data, index, lengths) = field_bytes(&[("A", "cat"), ("B", "cat"), ("B", "cat")], &[("A", 1), ("B", 2)]);
    let averages = averages(&[("body", 1.5)]);
    let retriever = open(&data, &index, &lengths, &averages);
    let found = retriever.retrieval_single_token("cat").unwrap();
    assert_eq!(by_field(&found.postings), named(&[("body", &[("A", 1), ("B", 2)])]));
    assert_eq!(by_field(&found.lengths), named(&[("body", &[("A", 1), ("B", 2)])]));
    assert_eq!(found.avg_lengths.get("body"), Some(&1.5f64.to_bits()));
    assert_eq!(found.doc_frequency, 2);
    assert_eq!(found.n_docs, 5);
}

#[test]
fn opening_from_bytes_fails_for_an_index_key_without_files() {
    let averages = averages(&[]);
    let r = Retriever::new(body_keys(), &averages, vec![], IndexStats { n_docs: 0 });
    assert_eq!(r.err(), Some(RetrievalError::UnknownField));
}

#[test]
fn matched_document_without_length_fails_the_retrieval() {
    let (data, index, lengths) = field_bytes(&[("A", "cat"), ("B", "cat")], &[("A", 1)]);
    let averages = averages(&[("body", 1.0)]);
    let retriever = open(&data, &index, &lengths, &averages);
    assert_eq!(retriever.retrieval_single_token("cat").err(), Some(RetrievalError::MissingLength));
    let found = retriever.get_matching_docids_postings("cat").unwrap();
    assert_eq!(retriever.get_lengths(&found).err(), Some(RetrievalError::MissingLength));
    assert_eq!(
        retriever.retrieval_multiple_tokens(&vec!["zzzz".to_string(), "cat".to_string()]).err(),
        Some(RetrievalError::MissingLength)
    );
}

#[test]
fn matched_field_without_average_fails_the_retrieval() {
    let (data, index, lengths) = field_bytes(&[("A", "cat")], &[("A", 1)]);
    let averages = averages(&[("title", 1.0)]);
    let retriever = open(&data, &index, &lengths, &averages);
    assert_eq!(retriever.retrieval_single_token("cat").err(), Some(RetrievalError::MissingAverage));
    let found = retriever.get_matching_docids_postings("cat").unwrap();
    assert_eq!(retriever.get_avg_lengths(&found).err(), Some(RetrievalError::MissingAverage));
    assert!(retriever.retrieval_single_token("dog").is_ok());
}

#[test]
fn truncated_data_file_fails_the_retrieval() {
    let (data, index, lengths) = field_bytes(&[("A", "cat"), ("A", "dog")], &[("A", 2)]);
    let averages = averages(&[("body", 2.0)]);
    let retriever = open(&data[..40], &index, &lengths, &averages);
    assert!(retriever.retrieval_single_token("cat").is_ok());
    assert_eq!(retriever.retrieval_single_token("dog").err(), Some(RetrievalError::OutOfRange));
}

#[test]
fn broken_payload_fails_the_retrieval() {
    let (mut data, index, lengths) = field_bytes(&[("A", "cat")], &[("A", 1)]);
    data[16] = 0xff;
    data[17] = 0xff;
    let averages = averages(&[("body", 1.0)]);
    let retriever = open(&data, &index, &lengths, &averages);
    assert_eq!(retriever.retrieval_single_token("cat").err(), Some(RetrievalError::Malformed));
}

#[test]
fn lengths_and_averages_are_gathered_for_the_matching_postings() {
    let out = two_fields();
    let retriever = Retriever::open(&out, vec!["title".to_string(), "body".to_string()]).unwrap();
    let dog = retriever.get_matching_docids_postings("dog").unwrap();
    let lengths = retriever.get_lengths(&dog).unwrap();
    assert_eq!(by_field(&lengths), named(&[("body", &[("A", 3), ("B", 1)]), ("title", &[("C", 2)])]));
    let averages = retriever.get_avg_lengths(&dog).unwrap();
    assert_eq!(averages.len(), 2);
    assert_eq!(averages.get("title"), Some(&1.5f64.to_bits()));
    assert_eq!(retriever.get_lengths(&StrMap::new()).unwrap().len(), 0);
    assert_eq!(retriever.get_avg_lengths(&StrMap::new()).unwrap().len(), 0);
}

#[test]
fn bytes_that_the_fst_crate_refuses_are_unreadable() {
    let (data, index, lengths) = field_bytes(&[("A", "cat")], &[("A", 1)]);
    let averages = averages(&[("body", 1.0)]);
    let files = |lengths_index, postings_index| {
        vec![FieldFiles { index_key: "body".to_string(), lengths_index, postings_index, postings_data: &data[..] }]
    };
    let stats = IndexStats { n_docs: 1 };
    let r = Retriever::new(body_keys(), &[], files(&lengths[..], &index[..]), stats);
    assert_eq!(r.err(), Some(RetrievalError::Unreadable));
    let r = Retriever::new(body_keys(), &averages, files(&[0u8; 10][..], &index[..]), stats);
    assert_eq!(r.err(), Some(RetrievalError::Unreadable));
    let r = Retriever::new(body_keys(), &averages, files(&lengths[..], &lengths[..3]), stats);
    assert_eq!(r.err(), Some(RetrievalError::Unreadable));
    assert!(Retriever::new(body_keys(), &averages, files(&lengths[..], &index[..]), stats).is_ok());
}

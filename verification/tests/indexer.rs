use std::collections::BTreeMap;

use bm25f::codec::read_frame;
use bm25f::indexer::{pad_docid, IndexOutput, Indexer, MAX_DOCID_LENGTH};
use bm25f::lengths::Lengths;
use bm25f::postings::Postings;
use bm25f::stats::IndexStats;
use bm25f::str_map::StrMap;

type Doc = Option<(String, StrMap<String>)>;

fn mean(total: u128, documents: usize) -> u64 {
    ((total as f64) / (documents as f64)).to_bits()
}

fn doc(docid: &str, fields: &[(&str, &str)]) -> Doc {
    let mut texts: StrMap<String> = StrMap::new();
    for (key, text) in fields {
        texts.insert(key.to_string(), text.to_string());
    }
    Some((docid.to_string(), texts))
}

fn two_fields() -> Indexer {
    Indexer::new(vec![
        ("title".to_string(), "title".to_string()),
        ("text".to_string(), "body".to_string()),
    ])
}

fn abc() -> Vec<Doc> {
    vec![
        doc("A", &[("title", "Cat"), ("body", "cat dog cat")]),
        doc("B", &[("body", "dog")]),
        doc("C", &[("title", "Emu"), ("body", "emu dog emu emu")]),
    ]
}

fn files(out: &IndexOutput) -> Vec<(String, Vec<u8>, Vec<u8>, Vec<u8>, (u128, usize))> {
    (0..out.field_count())
        .map(|i| {
            let field = out.field(i);
            (
                field.index_key().clone(),
                field.postings_data_bytes().clone(),
                field.postings_index_bytes().clone(),
                field.lengths_index_bytes().clone(),
                field.length_totals(),
            )
        })
        .collect()
}

fn same_files(a: &IndexOutput, b: &IndexOutput) {
    assert_eq!(files(a), files(b));
    assert_eq!(a.avg_lengths_index_bytes(), b.avg_lengths_index_bytes());
    assert_eq!(a.index_stats(), b.index_stats());
}

fn postings_of(out: &IndexOutput, field: usize, token: &str) -> Option<Vec<(String, u64)>> {
    let field = out.field(field);
    let index = fst::Map::new(field.postings_index_bytes().clone()).unwrap();
    index.get(token).map(|offset| {
        let entry = read_frame(field.postings_data_bytes(), offset).unwrap();
        (0..entry.len()).map(|i| (entry.key_at(i).trim_end_matches('\0').to_string(), *entry.value_at(i))).collect()
    })
}

fn length_of(out: &IndexOutput, field: usize, docid: &str) -> Option<u64> {
    fst::Map::new(out.field(field).lengths_index_bytes().clone()).unwrap().get(pad_docid(docid))
}

#[test]
fn docid_is_padded_with_nul_to_the_largest_length() {
    assert_eq!(MAX_DOCID_LENGTH, 32);
    let padded = pad_docid("A");
    assert_eq!(padded.len(), 32);
    assert_eq!(padded, format!("A{}", "\0".repeat(31)));
    assert_eq!(pad_docid(""), "\0".repeat(32));
    let full = "d".repeat(32);
    assert_eq!(pad_docid(&full), full);
    assert_eq!(pad_docid("éé"), format!("éé{}", "\0".repeat(28)));
}

#[test]
fn configured_index_keys_follow_the_configuration() {
    assert_eq!(two_fields().configured_index_keys(), vec!["title".to_string(), "body".to_string()]);
    assert_eq!(Indexer::new(vec![]).configured_index_keys(), Vec::<String>::new());
}

#[test]
fn fresh_writers_hold_every_index_key() {
    let keys = vec!["title".to_string(), "body".to_string(), "title".to_string()];
    let (postings, lengths) = Indexer::new_writers(&keys);
    assert_eq!(postings.len(), 2);
    assert_eq!(lengths.len(), 2);
    assert_eq!(postings.key_at(0), "body");
    assert_eq!(postings.key_at(1), "title");
    assert_eq!(postings.get("body").unwrap().key(), "body");
    assert_eq!(lengths.get("title").unwrap().key(), "title");
    assert_eq!(lengths.get("title").unwrap().get("A"), None);
}

#[test]
fn worker_indexes_the_fields_that_a_document_has() {
    let keys = vec!["title".to_string(), "body".to_string()];
    let (mut postings, mut lengths) = Indexer::new_writers(&keys);
    let (docid, fields) = doc("A", &[("body", "Cat, dog & CAT!"), ("other", "x")]).unwrap();
    Indexer::index_worker_function(&mut postings, &mut lengths, keys.clone(), docid, fields);
    let padded = pad_docid("A");
    assert_eq!(lengths.get("body").unwrap().get(&padded), Some(4));
    assert_eq!(lengths.get("title").unwrap().get(&padded), None);
    let out = Indexer::write_index(postings, lengths, 1, mean);
    assert_eq!(postings_of(&out, 0, "cat"), Some(vec![("A".to_string(), 2)]));
    assert_eq!(postings_of(&out, 0, "dog"), Some(vec![("A".to_string(), 1)]));
    assert_eq!(postings_of(&out, 0, ""), Some(vec![("A".to_string(), 1)]));
    assert_eq!(postings_of(&out, 1, "cat"), None);
}

#[test]
fn empty_text_gives_length_zero_and_no_postings() {
    let mut postings = Postings::new("body".to_string());
    let mut lengths = Lengths::new("body".to_string());
    Indexer::index_field_text(&mut postings, &mut lengths, &"A".to_string(), "");
    assert_eq!(lengths.get("A"), Some(0));
    let files = postings.write_postings();
    assert!(files.data.is_empty());
    assert_eq!(fst::Map::new(files.index).unwrap().len(), 0);

    let out = Indexer::new(vec![("body".to_string(), "body".to_string())]).index(vec![doc("A", &[("body", "")])], mean);
    assert_eq!(out.index_stats().n_docs, 1);
    assert_eq!(length_of(&out, 0, "A"), Some(0));
    assert!(out.field(0).postings_data_bytes().is_empty());
    assert_eq!(out.field(0).length_totals(), (0, 1));
}

#[test]
fn blank_text_gives_length_zero_and_no_postings() {
    let mut postings = Postings::new("body".to_string());
    let mut lengths = Lengths::new("body".to_string());
    Indexer::index_field_text(&mut postings, &mut lengths, &"A".to_string(), " \n\t ");
    assert_eq!(lengths.get("A"), Some(0));
    assert!(postings.write_postings().data.is_empty());
}

#[test]
fn field_text_is_counted_token_by_token() {
    let mut postings = Postings::new("body".to_string());
    let mut lengths = Lengths::new("body".to_string());
    Indexer::index_field_text(&mut postings, &mut lengths, &"A".to_string(), "b a b");
    assert_eq!(lengths.get("A"), Some(3));
    let (data, positions) = postings.create_postings_file();
    assert_eq!(positions.len(), 2);
    assert_eq!(*read_frame(&data, *positions.get("a").unwrap()).unwrap().get("A").unwrap(), 1);
    assert_eq!(*read_frame(&data, *positions.get("b").unwrap()).unwrap().get("A").unwrap(), 2);
}

#[test]
fn index_holds_postings_lengths_averages_and_stats() {
    let out = two_fields().index(abc(), mean);
    assert_eq!(out.index_stats(), IndexStats { n_docs: 3 });
    assert_eq!(out.field_count(), 2);
    assert_eq!(out.field(0).index_key(), "body");
    assert_eq!(out.field(1).index_key(), "title");

    assert_eq!(postings_of(&out, 0, "cat"), Some(vec![("A".to_string(), 2)]));
    assert_eq!(
        postings_of(&out, 0, "dog"),
        Some(vec![("A".to_string(), 1), ("B".to_string(), 1), ("C".to_string(), 1)])
    );
    assert_eq!(postings_of(&out, 0, "emu"), Some(vec![("C".to_string(), 3)]));
    assert_eq!(postings_of(&out, 1, "cat"), Some(vec![("A".to_string(), 1)]));
    assert_eq!(postings_of(&out, 1, "emu"), Some(vec![("C".to_string(), 1)]));
    assert_eq!(postings_of(&out, 1, "dog"), None);

    assert_eq!(length_of(&out, 0, "A"), Some(3));
    assert_eq!(length_of(&out, 0, "B"), Some(1));
    assert_eq!(length_of(&out, 0, "C"), Some(4));
    assert_eq!(length_of(&out, 1, "A"), Some(1));
    assert_eq!(length_of(&out, 1, "B"), None);
    assert_eq!(out.field(0).length_totals(), (8, 3));
    assert_eq!(out.field(1).length_totals(), (2, 2));

    let averages = fst::Map::new(out.avg_lengths_index_bytes().clone()).unwrap();
    assert_eq!(averages.len(), 2);
    assert_eq!(averages.get("body").map(f64::from_bits), Some(8.0 / 3.0));
    assert_eq!(averages.get("title").map(f64::from_bits), Some(1.0));
}

#[test]
fn every_document_of_the_postings_has_a_length() {
    let out = two_fields().index(abc(), mean);
    for field in 0..out.field_count() {
        let f = out.field(field);
        let lengths = fst::Map::new(f.lengths_index_bytes().clone()).unwrap();
        let tokens = fst::Map::new(f.postings_index_bytes().clone()).unwrap();
        for token in ["cat", "dog", "emu"] {
            if let Some(offset) = tokens.get(token) {
                let entry = read_frame(f.postings_data_bytes(), offset).unwrap();
                for i in 0..entry.len() {
                    assert!(lengths.get(entry.key_at(i)).is_some());
                    assert!(*entry.value_at(i) >= 1);
                }
            }
        }
    }
}

#[test]
fn index_does_not_depend_on_the_order_of_the_documents() {
    let forward = two_fields().index(abc(), mean);
    let mut docs = abc();
    docs.reverse();
    let backward = two_fields().index(docs, mean);
    same_files(&forward, &backward);
    let mut docs = abc();
    docs.swap(0, 1);
    same_files(&forward, &two_fields().index(docs, mean));
}

#[test]
fn indexing_twice_gives_the_same_bytes() {
    same_files(&two_fields().index(abc(), mean), &two_fields().index(abc(), mean));
}

#[test]
fn two_workers_in_opposite_orders_give_the_same_files() {
    let keys = two_fields().configured_index_keys();
    let run = |first: Vec<Doc>, second: Vec<Doc>| {
        let mut shares = Vec::new();
        for share in [first, second] {
            let (mut postings, mut lengths) = Indexer::new_writers(&keys);
            for (docid, fields) in share.into_iter().flatten() {
                Indexer::index_worker_function(&mut postings, &mut lengths, keys.clone(), docid, fields);
            }
            shares.push((postings, lengths));
        }
        let (mut postings, mut lengths) = Indexer::new_writers(&keys);
        for (worker_postings, worker_lengths) in &shares {
            Indexer::merge_writers(&mut postings, &mut lengths, worker_postings, worker_lengths);
        }
        Indexer::write_index(postings, lengths, 3, mean)
    };
    let mut all = abc();
    let c = all.pop().unwrap();
    let b = all.pop().unwrap();
    let a = all.pop().unwrap();
    let one = run(vec![a, b], vec![c]);
    let mut all = abc();
    let c = all.pop().unwrap();
    let b = all.pop().unwrap();
    let a = all.pop().unwrap();
    let other = run(vec![c], vec![b, a]);
    same_files(&one, &other);
    same_files(&one, &two_fields().index(abc(), mean));
}

#[test]
fn merged_writers_sum_postings_and_take_over_lengths() {
    let keys = vec!["body".to_string()];
    let (mut postings, mut lengths) = Indexer::new_writers(&keys);
    let (mut worker_postings, mut worker_lengths) = Indexer::new_writers(&keys);
    Indexer::index_document_into(
        &mut postings,
        &mut lengths,
        &keys,
        &"A".to_string(),
        &doc("A", &[("body", "cat")]).unwrap().1,
    );
    Indexer::index_document_into(
        &mut worker_postings,
        &mut worker_lengths,
        &keys,
        &"A".to_string(),
        &doc("A", &[("body", "cat cat dog")]).unwrap().1,
    );
    Indexer::merge_writers(&mut postings, &mut lengths, &worker_postings, &worker_lengths);
    assert_eq!(lengths.get("body").unwrap().get(&pad_docid("A")), Some(3));
    let out = Indexer::write_index(postings, lengths, 1, mean);
    assert_eq!(postings_of(&out, 0, "cat"), Some(vec![("A".to_string(), 3)]));
    assert_eq!(postings_of(&out, 0, "dog"), Some(vec![("A".to_string(), 1)]));
}

#[test]
fn missing_documents_are_passed_over() {
    let mut docs = abc();
    docs.insert(1, None);
    docs.push(None);
    let out = two_fields().index(docs, mean);
    assert_eq!(out.index_stats().n_docs, 3);
    same_files(&out, &two_fields().index(abc(), mean));
}

#[test]
fn document_with_too_long_docid_is_passed_over() {
    let mut docs = abc();
    docs.push(doc(&"x".repeat(33), &[("body", "cat yak")]));
    let out = two_fields().index(docs, mean);
    assert_eq!(out.index_stats().n_docs, 3);
    assert_eq!(postings_of(&out, 0, "yak"), None);
    same_files(&out, &two_fields().index(abc(), mean));
}

#[test]
fn document_with_docid_of_the_largest_length_is_indexed() {
    let docid = "x".repeat(32);
    let out = two_fields().index(vec![doc(&docid, &[("body", "yak")])], mean);
    assert_eq!(out.index_stats().n_docs, 1);
    assert_eq!(postings_of(&out, 0, "yak"), Some(vec![(docid.clone(), 1)]));
    assert_eq!(length_of(&out, 0, &docid), Some(1));
}

#[test]
fn index_without_documents_has_empty_fields() {
    let out = two_fields().index(vec![], mean);
    assert_eq!(out.index_stats().n_docs, 0);
    assert_eq!(out.field_count(), 2);
    for i in 0..2 {
        assert!(out.field(i).postings_data_bytes().is_empty());
        assert_eq!(fst::Map::new(out.field(i).postings_index_bytes().clone()).unwrap().len(), 0);
        assert_eq!(fst::Map::new(out.field(i).lengths_index_bytes().clone()).unwrap().len(), 0);
        assert_eq!(out.field(i).length_totals(), (0, 0));
    }
}

#[test]
fn symbol_tables_list_their_keys_in_ascending_order() {
    let out = two_fields().index(abc(), mean);
    let tokens = fst::Map::new(out.field(0).postings_index_bytes().clone()).unwrap();
    let keys = tokens.stream().into_str_keys().unwrap();
    assert_eq!(keys, vec!["cat".to_string(), "dog".to_string(), "emu".to_string()]);
    let docids = fst::Map::new(out.field(0).lengths_index_bytes().clone()).unwrap();
    let docids = docids.stream().into_str_keys().unwrap();
    assert_eq!(docids, vec![pad_docid("A"), pad_docid("B"), pad_docid("C")]);
}

#[test]
fn larger_corpus_agrees_with_a_count_by_hand() {
    let vocabulary = ["alpha", "beta", "gamma", "delta", "epsilon", "zeta", "eta", "theta", "iota", "kappa"];
    let mut state: u64 = 0x2545_f491_4f6c_dd1d;
    let mut next = move || {
        state ^= state << 13;
        state ^= state >> 7;
        state ^= state << 17;
        state
    };
    let mut docs = Vec::new();
    let mut expected: BTreeMap<String, BTreeMap<String, u64>> = BTreeMap::new();
    let mut expected_lengths: BTreeMap<String, u64> = BTreeMap::new();
    for d in 0..200 {
        let docid = format!("doc-{:03}", (d * 37) % 200);
        let count = (next() % 40) as usize;
        let words: Vec<&str> = (0..count).map(|_| vocabulary[(next() % 10) as usize]).collect();
        for word in &words {
            *expected.entry(word.to_string()).or_default().entry(docid.clone()).or_insert(0) += 1;
        }
        expected_lengths.insert(docid.clone(), count as u64);
        docs.push(doc(&docid, &[("body", &words.join(" "))]));
    }
    let out = Indexer::new(vec![("text".to_string(), "body".to_string())]).index(docs, mean);
    assert_eq!(out.index_stats().n_docs, 200);
    for word in vocabulary {
        let found: Option<BTreeMap<String, u64>> = postings_of(&out, 0, word).map(|e| e.into_iter().collect());
        assert_eq!(found.as_ref(), expected.get(word));
    }
    for (docid, length) in &expected_lengths {
        assert_eq!(length_of(&out, 0, docid), Some(*length));
    }
    let total: u64 = expected_lengths.values().sum();
    assert_eq!(out.field(0).length_totals(), (total as u128, 200));
}

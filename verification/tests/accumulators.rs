use bm25f::avg_lengths::Avglengths;
use bm25f::codec::read_frame;
use bm25f::layout::{
    avg_lengths_index_file, index_stats_file, lengths_index_file, postings_data_file, postings_index_file,
};
use bm25f::lengths::Lengths;
use bm25f::postings::{Postings, PostingsBTree};
use bm25f::stats::{IndexStats, Stats};
use bm25f::str_map::StrMap;

fn occurrences(field: &str, pairs: &[(&str, &str)]) -> Postings {
    let mut postings = Postings::new(field.to_string());
    for (docid, token) in pairs {
        postings.add_token_to_docid(&docid.to_string(), token);
    }
    postings
}

fn listed(map: &StrMap<u64>) -> Vec<(String, u64)> {
    (0..map.len()).map(|i| (map.key_at(i).clone(), *map.value_at(i))).collect()
}

fn stored(postings: &mut Postings) -> Vec<(String, Vec<(String, u64)>)> {
    let (data, positions) = postings.create_postings_file();
    (0..positions.len())
        .map(|i| {
            let entry = read_frame(&data, *positions.value_at(i)).unwrap();
            (positions.key_at(i).clone(), listed(&entry))
        })
        .collect()
}

fn named(pairs: &[(&str, &[(&str, u64)])]) -> Vec<(String, Vec<(String, u64)>)> {
    pairs
        .iter()
        .map(|(token, entry)| (token.to_string(), entry.iter().map(|(d, tf)| (d.to_string(), *tf)).collect()))
        .collect()
}

#[test]
fn postings_count_each_occurrence() {
    let mut postings = occurrences("body", &[("A", "cat"), ("A", "dog"), ("A", "cat"), ("B", "dog")]);
    assert_eq!(postings.key(), "body");
    assert_eq!(
        stored(&mut postings),
        named(&[("cat", &[("A", 2)]), ("dog", &[("A", 1), ("B", 1)])])
    );
}

#[test]
fn postings_tree_counts_each_occurrence() {
    let mut tree = PostingsBTree::new();
    tree.add_token_to_docid(&"A".to_string(), "cat");
    tree.add_token_to_docid(&"A".to_string(), "cat");
    let mut merged = PostingsBTree::new();
    merged.add_tree(&occurrences("body", &[("A", "cat"), ("B", "cat")]));
    merged.add_tree(&occurrences("body", &[("A", "cat"), ("A", "cat")]));
    let mut into = Postings::new("body".to_string());
    into.add_postings(&occurrences("body", &[("A", "cat"), ("B", "cat"), ("A", "cat"), ("A", "cat")]));
    assert_eq!(stored(&mut into), named(&[("cat", &[("A", 3), ("B", 1)])]));
}

#[test]
fn postings_keep_the_empty_token() {
    let mut postings = occurrences("body", &[("A", ""), ("A", "")]);
    assert_eq!(stored(&mut postings), named(&[("", &[("A", 2)])]));
}

#[test]
fn merged_postings_sum_the_frequencies() {
    let mut left = occurrences("body", &[("A", "cat"), ("A", "cat"), ("B", "dog")]);
    let right = occurrences("body", &[("A", "cat"), ("C", "dog"), ("C", "emu")]);
    left.add_postings(&right);
    assert_eq!(
        stored(&mut left),
        named(&[("cat", &[("A", 3)]), ("dog", &[("B", 1), ("C", 1)]), ("emu", &[("C", 1)])])
    );
}

#[test]
fn merging_is_the_same_in_either_order() {
    let build_a = || occurrences("body", &[("A", "cat"), ("A", "cat"), ("B", "dog")]);
    let build_b = || occurrences("body", &[("A", "cat"), ("C", "dog"), ("C", "emu")]);
    let mut left = build_a();
    left.add_postings(&build_b());
    let mut right = build_b();
    right.add_postings(&build_a());
    let left_files = left.write_postings();
    let right_files = right.write_postings();
    assert_eq!(left_files.data, right_files.data);
    assert_eq!(left_files.index, right_files.index);
}

#[test]
fn merging_with_empty_postings_changes_nothing() {
    let mut postings = occurrences("body", &[("A", "cat")]);
    postings.add_postings(&Postings::new("body".to_string()));
    let mut empty = Postings::new("body".to_string());
    empty.add_postings(&occurrences("body", &[("A", "cat")]));
    assert_eq!(postings.write_postings().data, empty.write_postings().data);
}

#[test]
fn postings_file_frames_the_entries_in_token_order() {
    let mut postings = occurrences("body", &[("B", "dog"), ("A", "dog"), ("A", "cat"), ("A", "cat")]);
    let (data, positions) = postings.create_postings_file();
    assert_eq!(listed(&positions), vec![("cat".to_string(), 0), ("dog".to_string(), 33)]);
    let mut expected = vec![25u8, 0, 0, 0, 0, 0, 0, 0];
    expected.extend_from_slice(&[1, 0, 0, 0, 0, 0, 0, 0]);
    expected.extend_from_slice(&[1, 0, 0, 0, 0, 0, 0, 0, b'A', 2, 0, 0, 0, 0, 0, 0, 0]);
    expected.extend_from_slice(&[42, 0, 0, 0, 0, 0, 0, 0]);
    expected.extend_from_slice(&[2, 0, 0, 0, 0, 0, 0, 0]);
    expected.extend_from_slice(&[1, 0, 0, 0, 0, 0, 0, 0, b'A', 1, 0, 0, 0, 0, 0, 0, 0]);
    expected.extend_from_slice(&[1, 0, 0, 0, 0, 0, 0, 0, b'B', 1, 0, 0, 0, 0, 0, 0, 0]);
    assert_eq!(data, expected);
}

#[test]
fn writing_drains_the_postings() {
    let mut postings = occurrences("body", &[("A", "cat")]);
    let first = postings.write_postings();
    assert!(!first.data.is_empty());
    let second = postings.write_postings();
    assert!(second.data.is_empty());
    assert_eq!(fst::Map::new(second.index).unwrap().len(), 0);
    assert_eq!(postings.key(), "body");
}

#[test]
fn postings_index_maps_each_token_to_its_offset() {
    let mut postings = occurrences("body", &[("B", "dog"), ("A", "dog"), ("A", "cat"), ("A", "cat")]);
    let files = postings.write_postings();
    let index = fst::Map::new(files.index).unwrap();
    assert_eq!(index.len(), 2);
    assert_eq!(index.get("cat"), Some(0));
    assert_eq!(index.get("dog"), Some(33));
    assert_eq!(index.get("emu"), None);
    let dog = read_frame(&files.data, index.get("dog").unwrap()).unwrap();
    assert_eq!(listed(&dog), vec![("A".to_string(), 1), ("B".to_string(), 1)]);
}

#[test]
fn postings_fst_file_is_built_from_the_positions() {
    let postings = Postings::new("body".to_string());
    let mut positions: StrMap<u64> = StrMap::new();
    positions.insert("b".to_string(), 7);
    positions.insert("a".to_string(), 3);
    let index = fst::Map::new(postings.create_postings_fst_file(&positions)).unwrap();
    assert_eq!(index.get("a"), Some(3));
    assert_eq!(index.get("b"), Some(7));
    let built = fst::Map::from_iter(vec![("a", 3u64), ("b", 7)]).unwrap();
    assert_eq!(index.as_fst().as_bytes(), built.as_fst().as_bytes());
}

#[test]
fn last_length_set_for_a_document_stands() {
    let mut lengths = Lengths::new("body".to_string());
    assert_eq!(lengths.key(), "body");
    assert_eq!(lengths.get("A"), None);
    lengths.add_length("A".to_string(), 3);
    lengths.add_length("B".to_string(), 1);
    lengths.add_length("A".to_string(), 5);
    assert_eq!(lengths.get("A"), Some(5));
    assert_eq!(lengths.get("B"), Some(1));
}

#[test]
fn added_lengths_replace_those_of_the_same_document() {
    let mut lengths = Lengths::new("body".to_string());
    lengths.add_length("A".to_string(), 3);
    lengths.add_length("B".to_string(), 1);
    let mut other = Lengths::new("body".to_string());
    other.add_length("B".to_string(), 9);
    other.add_length("C".to_string(), 2);
    lengths.add_lengths(&other);
    assert_eq!(lengths.get("A"), Some(3));
    assert_eq!(lengths.get("B"), Some(9));
    assert_eq!(lengths.get("C"), Some(2));
}

#[test]
fn lengths_are_written_with_their_sum_and_number() {
    let mut lengths = Lengths::new("body".to_string());
    lengths.add_length("B".to_string(), 1);
    lengths.add_length("A".to_string(), 3);
    let file = lengths.write_lengths();
    assert_eq!(file.total_length, 4);
    assert_eq!(file.documents, 2);
    assert_eq!((file.total_length as f64) / (file.documents as f64), 2.0);
    let index = fst::Map::new(file.index).unwrap();
    assert_eq!(index.get("A"), Some(3));
    assert_eq!(index.get("B"), Some(1));
    assert_eq!(index.len(), 2);
}

#[test]
fn sum_of_lengths_does_not_wrap() {
    let mut lengths = Lengths::new("body".to_string());
    lengths.add_length("A".to_string(), u64::MAX);
    lengths.add_length("B".to_string(), u64::MAX);
    lengths.add_length("C".to_string(), 2);
    let file = lengths.write_lengths();
    assert_eq!(file.total_length, 2 * (u64::MAX as u128) + 2);
    assert_eq!(file.documents, 3);
}

#[test]
fn no_lengths_give_an_empty_table() {
    let file = Lengths::new("body".to_string()).write_lengths();
    assert_eq!(file.total_length, 0);
    assert_eq!(file.documents, 0);
    assert_eq!(fst::Map::new(file.index).unwrap().len(), 0);
}

#[test]
fn average_goes_through_the_table_as_its_bits() {
    let mut averages = Avglengths::new();
    for (field, average) in [("title", 2.5f64), ("body", 1234.000001), ("empty", f64::NAN)] {
        averages.add_avg_length(field.to_string(), average.to_bits());
    }
    averages.add_avg_length("title".to_string(), 3.5f64.to_bits());
    let index = fst::Map::new(averages.write_avg_lengths()).unwrap();
    assert_eq!(index.len(), 3);
    assert_eq!(index.get("title").map(f64::from_bits), Some(3.5));
    assert_eq!(index.get("body").map(f64::from_bits), Some(1234.000001));
    assert!(index.get("empty").map(f64::from_bits).unwrap().is_nan());
}

#[test]
fn float_and_bits_convert_back_and_forth() {
    for value in [0.0f64, -0.0, 2.0, 1.0 / 3.0, f64::MAX, f64::MIN_POSITIVE, f64::INFINITY] {
        assert_eq!(f64::from_bits(value.to_bits()).to_bits(), value.to_bits());
    }
    for bits in [0u64, 1, 0x4000_0000_0000_0000, u64::MAX, 0x7ff8_0000_0000_0001] {
        assert_eq!(f64::from_bits(bits).to_bits(), bits);
    }
    assert_eq!(2.0f64.to_bits(), 0x4000_0000_0000_0000);
}

#[test]
fn stats_hold_the_number_of_documents() {
    let stats = Stats::new(2);
    assert_eq!(stats.index_stats(), IndexStats { n_docs: 2 });
    assert_eq!(stats.index_stats().n_docs, 2);
}

#[test]
fn files_are_named_after_their_field() {
    assert_eq!(postings_data_file("body"), "postings_data_body.bin");
    assert_eq!(postings_index_file("body"), "postings_index_body.fst");
    assert_eq!(lengths_index_file("body"), "lengths_index_body.fst");
    assert_eq!(avg_lengths_index_file(), "avg_lengths_index.fst");
    assert_eq!(index_stats_file(), "index_stats.json");
    assert_eq!(postings_data_file(""), "postings_data_.bin");
}

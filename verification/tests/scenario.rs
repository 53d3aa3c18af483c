use bm25f::indexer::{pad_docid, FieldOutput, IndexOutput, Indexer};
use bm25f::retrieval::{strip_docid, Retriever, TokenMatch};
use bm25f::str_map::StrMap;

fn mean_bits(total: u128, documents: usize) -> u64 {
    ((total as f64) / (documents as f64)).to_bits()
}

fn document(docid: &str, fields: &[(&str, &str)]) -> Option<(String, StrMap<String>)> {
    let mut texts: StrMap<String> = StrMap::new();
    for (key, text) in fields {
        texts.insert(key.to_string(), text.to_string());
    }
    Some((docid.to_string(), texts))
}

fn body_indexer() -> Indexer {
    Indexer::new(vec![("body".to_string(), "body".to_string())])
}

fn cat_dog_corpus() -> Vec<Option<(String, StrMap<String>)>> {
    vec![document("A", &[("body", "cat dog cat")]), document("B", &[("body", "dog")])]
}

fn index_of(docs: Vec<Option<(String, StrMap<String>)>>) -> IndexOutput {
    body_indexer().index(docs, mean_bits)
}

fn body(out: &IndexOutput) -> &FieldOutput {
    assert_eq!(out.field_count(), 1);
    out.field(0)
}

fn pairs_of(map: &StrMap<u64>) -> Vec<(String, u64)> {
    let mut pairs = Vec::new();
    for i in 0..map.len() {
        pairs.push((strip_docid(map.key_at(i)), *map.value_at(i)));
    }
    pairs
}

fn gather(out: &IndexOutput, token: &str) -> TokenMatch {
    let retriever = Retriever::open(out, vec!["body".to_string()]).unwrap();
    retriever.retrieval_single_token(token).unwrap()
}

#[test]
fn corpus_is_indexed_as_described() {
    let out = index_of(cat_dog_corpus());
    assert_eq!(out.index_stats().n_docs, 2);
    let field = body(&out);
    assert_eq!(field.index_key(), "body");

    let tokens = fst::Map::new(field.postings_index_bytes().clone()).unwrap();
    assert_eq!(tokens.len(), 2);
    assert!(tokens.contains_key("cat"));
    assert!(tokens.contains_key("dog"));

    let lengths = fst::Map::new(field.lengths_index_bytes().clone()).unwrap();
    assert_eq!(lengths.len(), 2);
    assert_eq!(lengths.get(pad_docid("A")), Some(3));
    assert_eq!(lengths.get(pad_docid("B")), Some(1));
    assert_eq!(field.length_totals(), (4, 2));

    let averages = fst::Map::new(out.avg_lengths_index_bytes().clone()).unwrap();
    assert_eq!(averages.get("body").map(f64::from_bits), Some(2.0));

    let cat = gather(&out, "cat");
    assert_eq!(pairs_of(cat.postings.get("body").unwrap()), vec![("A".to_string(), 2)]);
    let dog = gather(&out, "dog");
    assert_eq!(
        pairs_of(dog.postings.get("body").unwrap()),
        vec![("A".to_string(), 1), ("B".to_string(), 1)]
    );
}

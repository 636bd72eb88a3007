//! Writing the artifacts.
use geo_trie_rs::IndexBuilder;

#[test]
fn rejects_nothing_and_builds_empty() {
    let (fst, records) = IndexBuilder::new().build().unwrap();
    assert!(!fst.is_empty(), "even an empty fst has a header");
    // Empty store must still parse.
    let store = geo_trie_rs::records::RecordStore::new(records).unwrap();
    assert_eq!(store.n_records(), 0);
    assert_eq!(store.n_postings(), 0);
}

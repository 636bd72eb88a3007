//! Answering queries.
use geo_trie_rs::distance::prefix_edit_distance_le;
use geo_trie_rs::search::MAX_EDITS;
use geo_trie_rs::{normalize, ErrorKind, Index, IndexBuilder, Record};

fn rec(group: u64, rank: i64, payload: &str) -> Record {
    Record {
        group,
        rank,
        payload: payload.as_bytes().to_vec(),
    }
}

fn payload(r: &Record) -> &str {
    std::str::from_utf8(&r.payload).unwrap()
}

/// Build an index with a few overlapping-prefix items and shared aliases.
/// Payload is just the display string; group is a stable item id; rank a weight.
fn sample() -> Index<Vec<u8>> {
    let mut b = IndexBuilder::new();
    let berlin = b.add_record(rec(1, 3_600_000, "Berlin"));
    let bern = b.add_record(rec(2, 130_000, "Bern"));
    let bergen = b.add_record(rec(3, 280_000, "Bergen"));
    let paris = b.add_record(rec(4, 2_100_000, "Paris"));

    // Each item indexed under its own normalized name...
    b.add_key("berlin", berlin);
    b.add_key("bern", bern);
    b.add_key("bergen", bergen);
    b.add_key("paris", paris);
    // ...and an alias that several items share.
    b.add_key("ber", berlin);
    b.add_key("ber", bern);
    b.add_key("ber", bergen);

    let (fst, records) = b.build().unwrap();
    Index::from_bytes(fst, records).unwrap()
}

#[test]
fn prefix_matches_and_ranks_by_rank() {
    let idx = sample();
    let out = idx.suggest("ber", 10).unwrap();
    let names: Vec<_> = out.iter().map(payload).collect();
    // Berlin (3.6M) > Bergen (280k) > Bern (130k).
    assert_eq!(names, vec!["Berlin", "Bergen", "Bern"]);
}

#[test]
fn respects_limit() {
    let idx = sample();
    let out = idx.suggest("ber", 2).unwrap();
    assert_eq!(out.len(), 2);
    assert_eq!(payload(&out[0]), "Berlin");
    assert_eq!(payload(&out[1]), "Bergen");
}

#[test]
fn exact_deeper_prefix() {
    let idx = sample();
    let out = idx.suggest("berl", 10).unwrap();
    assert_eq!(out.len(), 1);
    assert_eq!(payload(&out[0]), "Berlin");
}

#[test]
fn dedups_by_group_across_alias_and_name() {
    let idx = sample();
    // "Berlin" is reachable via both "ber" alias and "berlin" key; must appear once.
    let out = idx.suggest("ber", 10).unwrap();
    let berlins = out.iter().filter(|r| r.group == 1).count();
    assert_eq!(berlins, 1);
}

#[test]
fn normalizes_query() {
    let idx = sample();
    // Uppercase + trailing separators should fold to "ber".
    assert_eq!(idx.suggest("  BER-- ", 10).unwrap().len(), 3);
}

#[test]
fn empty_and_miss() {
    let idx = sample();
    assert!(idx.suggest("", 10).unwrap().is_empty());
    assert!(idx.suggest("zzz", 10).unwrap().is_empty());
    assert!(idx.suggest("ber", 0).unwrap().is_empty());
}

#[test]
fn len_and_is_empty() {
    assert_eq!(sample().len(), 4);
    assert!(!sample().is_empty());

    let (fst, records) = IndexBuilder::new().build().unwrap();
    let empty = Index::from_bytes(fst, records).unwrap();
    assert_eq!(empty.len(), 0);
    assert!(empty.is_empty());
    assert!(empty.suggest("anything", 10).unwrap().is_empty());
}

#[test]
fn equal_rank_tiebreaks_on_payload_asc() {
    let mut b = IndexBuilder::new();
    // Same rank; deterministic order must be by payload bytes ascending.
    let beta = b.add_record(rec(1, 100, "Beta"));
    let alpha = b.add_record(rec(2, 100, "Alpha"));
    b.add_key("x", beta);
    b.add_key("x", alpha);
    let (fst, records) = b.build().unwrap();
    let idx = Index::from_bytes(fst, records).unwrap();

    let out = idx.suggest("x", 10).unwrap();
    assert_eq!(payload(&out[0]), "Alpha");
    assert_eq!(payload(&out[1]), "Beta");
}

#[test]
fn group_dedup_keeps_highest_rank_member() {
    // Two records share group 42 under the same key but have
    // different ranks; the higher-rank one must be the survivor regardless of
    // insertion/scan order.
    let mut b = IndexBuilder::new();
    let low = b.add_record(rec(42, 10, "low-rank"));
    let high = b.add_record(rec(42, 999, "high-rank"));
    // Insert low first so scan order would otherwise keep it.
    b.add_key("k", low);
    b.add_key("k", high);
    let (fst, records) = b.build().unwrap();
    let idx = Index::from_bytes(fst, records).unwrap();

    let out = idx.suggest("k", 10).unwrap();
    assert_eq!(out.len(), 1, "group 42 must collapse to one row");
    assert_eq!(out[0].rank, 999);
    assert_eq!(payload(&out[0]), "high-rank");
}

#[test]
fn negative_ranks_order_descending() {
    let mut b = IndexBuilder::new();
    let low = b.add_record(rec(1, -100, "low"));
    let high = b.add_record(rec(2, -1, "high"));
    b.add_key("k", low);
    b.add_key("k", high);
    let (fst, records) = b.build().unwrap();
    let idx = Index::from_bytes(fst, records).unwrap();

    let out = idx.suggest("k", 10).unwrap();
    // -1 > -100, so "high" comes first.
    assert_eq!(payload(&out[0]), "high");
    assert_eq!(payload(&out[1]), "low");
}

#[test]
fn limit_larger_than_results_returns_all() {
    let idx = sample();
    let out = idx.suggest("ber", 999).unwrap();
    assert_eq!(out.len(), 3);
}

/// Index a long key to exercise fuzzy-prefix recovery.
fn fuzzy_sample() -> Index<Vec<u8>> {
    let mut b = IndexBuilder::new();
    let sol = b.add_record(rec(1, 52_798, "Solnechnogorsk"));
    let ber = b.add_record(rec(2, 3_600_000, "Berlin"));
    b.add_key("solnechnogorsk", sol);
    b.add_key("berlin", ber);
    let (fst, records) = b.build().unwrap();
    Index::from_bytes(fst, records).unwrap()
}

#[test]
fn fuzzy_recovers_near_miss() {
    let idx = fuzzy_sample();
    // "solnecho" is NOT an exact prefix of "solnechnogorsk"...
    assert!(idx.suggest("solnecho", 8).unwrap().is_empty());
    // ...but within 1 edit of the prefix "solnechn", so fuzzy recovers it.
    let out = idx.suggest_fuzzy("solnecho", 8, 1).unwrap();
    assert_eq!(out.len(), 1);
    assert_eq!(payload(&out[0]), "Solnechnogorsk");

    // Two typos need distance 2.
    assert!(idx.suggest_fuzzy("salnecha", 8, 1).unwrap().is_empty());
    let out2 = idx.suggest_fuzzy("salnecha", 8, 2).unwrap();
    assert_eq!(out2.len(), 1);
    assert_eq!(payload(&out2[0]), "Solnechnogorsk");
}

#[test]
fn fuzzy_off_is_byte_identical_to_exact() {
    let idx = fuzzy_sample();
    for q in ["sol", "solnechnogorsk", "ber", "berlin", "xyz", ""] {
        assert_eq!(
            idx.suggest(q, 8).unwrap(),
            idx.suggest_fuzzy(q, 8, 0).unwrap(),
        );
    }
}

#[test]
fn fuzzy_still_prefix_not_whole_word() {
    // Distance-1 fuzzy of a short prefix must not accidentally pull unrelated
    // records: "berlin" is far from "solnecho".
    let idx = fuzzy_sample();
    let out = idx.suggest_fuzzy("solnecho", 8, 1).unwrap();
    assert!(out.iter().all(|r| payload(r) != "Berlin"));
}

#[test]
fn fuzzy_rejects_too_many_edits() {
    let idx = fuzzy_sample();
    let e = idx.suggest_fuzzy("sol", 8, MAX_EDITS + 1).unwrap_err();
    assert_eq!(e.kind(), ErrorKind::InvalidInput);
}

#[test]
fn prefix_edit_distance_le_unit() {
    let q: Vec<char> = "солнечо".chars().collect();
    // Prefix "солнечн" of the key is 1 substitution away; extra chars are free.
    assert!(prefix_edit_distance_le(&q, "солнечногорск", 1));
    assert!(!prefix_edit_distance_le(&q, "солнечногорск", 0));

    let q2: Vec<char> = "kat".chars().collect();
    assert!(prefix_edit_distance_le(&q2, "katze", 0)); // exact prefix
    assert!(prefix_edit_distance_le(&q2, "cat", 1)); // 1 substitution
    assert!(!prefix_edit_distance_le(&q2, "dog", 2)); // too far
                                                      // Deletion: query longer than a short key still matches within budget.
    let q3: Vec<char> = "berlim".chars().collect();
    assert!(prefix_edit_distance_le(&q3, "berlin", 1));
}

#[test]
fn unicode_prefix_query() {
    let mut b = IndexBuilder::new();
    let r = b.add_record(rec(1, 1, "Zürich"));
    b.add_key(&normalize("Zürich"), r);
    let (fst, records) = b.build().unwrap();
    let idx = Index::from_bytes(fst, records).unwrap();

    // Query with accents + case; folds to the same key.
    assert_eq!(idx.suggest("zür", 10).unwrap().len(), 1);
    assert_eq!(idx.suggest("ZURI", 10).unwrap().len(), 1);
}

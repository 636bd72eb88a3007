//! What holds of the library as a whole, on concrete values.
use geo_trie_rs::distance::prefix_edit_distance_le;
use geo_trie_rs::normalize::{collapse, drop_marks, fold, is_separator};
use geo_trie_rs::order::{place_bytes, sort, Place};
use geo_trie_rs::ranking::{outranks, rank_records};
use geo_trie_rs::search::keep_near;
use geo_trie_rs::{normalize, GeoRecord, Index, IndexBuilder, IndexError, Record, RecordStore};

fn rec(group: u64, rank: i64, payload: &str) -> Record {
    Record { group, rank, payload: payload.as_bytes().to_vec() }
}

fn towns() -> IndexBuilder {
    let mut b = IndexBuilder::new();
    let rome = b.add_record(rec(1, 2_800, "Rome"));
    let roma = b.add_record(rec(1, 2_900, "Roma"));
    let romans = b.add_record(rec(2, 33, "Romans"));
    let riga = b.add_record(rec(3, 600, "Riga"));
    b.add_key("rome", rome);
    b.add_key("roma", roma);
    b.add_key("romans", romans);
    b.add_key("riga", riga);
    b.add_key("rīga", riga);
    b
}

fn opened(b: IndexBuilder) -> Index<Vec<u8>> {
    let (fst, records) = b.build().unwrap();
    Index::from_bytes(fst, records).unwrap()
}

#[test]
fn a_group_is_shown_once_by_its_best_member() {
    let shown = opened(towns()).suggest("r", 8).unwrap();
    assert_eq!(shown, vec![rec(1, 2_900, "Roma"), rec(3, 600, "Riga"), rec(2, 33, "Romans")]);
}

#[test]
fn the_ranking_does_not_depend_on_the_order_of_the_pool() {
    let pool = vec![rec(1, 5, "b"), rec(2, 5, "b"), rec(3, 7, "z"), rec(1, 5, "a"), rec(3, 7, "y")];
    let expected = vec![rec(3, 7, "y"), rec(1, 5, "a"), rec(2, 5, "b")];
    assert_eq!(rank_records(pool.clone(), 9), expected);
    let mut turned = pool;
    turned.reverse();
    assert_eq!(rank_records(turned, 9), expected);
}

#[test]
fn a_smaller_limit_shows_the_beginning() {
    let idx = opened(towns());
    let all = idx.suggest("r", 8).unwrap();
    for limit in 1..5usize {
        let shown = idx.suggest("r", limit).unwrap();
        assert_eq!(shown.as_slice(), &all[..limit.min(all.len())]);
    }
}

#[test]
fn prefixes_that_fold_alike_are_answered_alike() {
    let idx = opened(towns());
    assert_eq!(normalize("  RÔM"), normalize("rom"));
    assert_eq!(idx.suggest("  RÔM", 8).unwrap(), idx.suggest("rom", 8).unwrap());
}

#[test]
fn links_made_in_another_order_or_twice_do_not_show() {
    let mut b = IndexBuilder::new();
    b.add_record(rec(1, 2_800, "Rome"));
    b.add_record(rec(1, 2_900, "Roma"));
    b.add_record(rec(2, 33, "Romans"));
    b.add_record(rec(3, 600, "Riga"));
    for (key, id) in [("rīga", 3), ("romans", 2), ("rome", 0), ("riga", 3), ("roma", 1), ("rome", 0)] {
        b.add_key(key, id);
    }
    assert_eq!(b.build().unwrap(), towns().build().unwrap());
}

#[test]
fn more_edits_find_no_less() {
    let idx = opened(towns());
    for q in ["r", "rom", "roman", "riga", "rzme"] {
        let mut before = 0;
        for edits in 0..3u32 {
            let n = idx.suggest_fuzzy(q, 8, edits).unwrap().len();
            assert!(n >= before);
            before = n;
        }
    }
}

#[test]
fn a_typo_in_the_first_character_is_not_recovered() {
    let idx = opened(towns());
    assert!(idx.suggest_fuzzy("xoma", 8, 2).unwrap().is_empty());
    assert_eq!(idx.suggest_fuzzy("rxma", 8, 1).unwrap()[0].group, 1);
}

#[test]
fn too_many_edits_are_refused_unless_nothing_is_asked() {
    let idx = opened(towns());
    assert_eq!(idx.suggest_fuzzy("r", 8, 3).unwrap_err(), IndexError::TooManyEdits(3));
    assert!(idx.suggest_fuzzy("--", 8, 3).unwrap().is_empty());
    assert!(idx.suggest_fuzzy("r", 0, 3).unwrap().is_empty());
}

#[test]
fn asking_once_is_building_opening_and_asking() {
    let idx = opened(towns());
    for edits in 0..4u32 {
        assert_eq!(towns().suggest_once("rim", 8, edits), idx.suggest_fuzzy("rim", 8, edits));
    }
    assert_eq!(towns().into_index().unwrap().suggest("rig", 8), idx.suggest("rig", 8));
    // The payloads are no places.
    assert!(towns().suggest_geo_once("rig", 8, 0).is_err());
    assert!(towns().suggest_geo_once("rig", 8, 1).is_err());
    assert!(towns().suggest_geo_once("zzz", 8, 0).unwrap().is_empty());
}

#[test]
fn places_shown_are_records_shown() {
    let place = |gid: u64, name: &str| GeoRecord {
        gid,
        lat_bits: gid,
        lon_bits: gid + 1,
        population: 10,
        country: "LV".into(),
        feature_code: "PPL".into(),
        name: name.into(),
    };
    let mut b = IndexBuilder::new();
    for (gid, name) in [(9, "Ogre"), (4, "Olaine")] {
        let id = b.add_record(place(gid, name).to_record());
        b.add_key(&normalize(name), id);
    }
    let idx = opened(b);
    let places = idx.suggest_geo_fuzzy("o", 8, 1).unwrap();
    assert_eq!(places, GeoRecord::from_records(&idx.suggest_fuzzy("o", 8, 1).unwrap()).unwrap());
    assert_eq!(places.len(), 2);
}

#[test]
fn postings_rise_and_are_numbered_by_key() {
    let (_, records) = towns().build().unwrap();
    let store = RecordStore::new(records).unwrap();
    // riga, roma, romans, rome, rīga.
    let ids: Vec<Vec<u32>> = (0..5).map(|i| store.posting(i).unwrap()).collect();
    assert_eq!(ids, vec![vec![3], vec![1], vec![2], vec![0], vec![3]]);
}

#[test]
fn ids_are_collected_once_in_the_order_of_the_entries() {
    let (_, records) = towns().build().unwrap();
    let store = RecordStore::new(records).unwrap();
    let entry = |n: u64| (Vec::new(), n);
    let found = vec![entry(4), entry(1), entry(0), entry(0x1_0000_0002)];
    assert_eq!(store.collect_ids(&found).unwrap(), vec![3, 1, 2]);
    assert_eq!(store.collect_ids(&vec![entry(0), entry(5)]).unwrap_err(), IndexError::PostingIndex);
    assert_eq!(store.finalize(vec![3, 1], 1).unwrap(), vec![rec(1, 2_900, "Roma")]);
    assert_eq!(store.finalize(vec![3, 4], 1).unwrap_err(), IndexError::RecordId);
}

#[test]
fn keys_that_are_no_text_are_skipped_by_a_fuzzy_query() {
    let query: Vec<char> = "ro".chars().collect();
    let scanned = vec![(b"rome".to_vec(), 1), (vec![b'r', 0xff], 2), (b"rzz".to_vec(), 3)];
    assert_eq!(keep_near(&query, scanned.clone(), 1), vec![scanned[0].clone(), scanned[2].clone()]);
    assert_eq!(keep_near(&query, scanned.clone(), 0), vec![scanned[0].clone()]);
}

#[test]
fn edits_are_counted_in_characters() {
    let query: Vec<char> = "ёлка".chars().collect();
    assert!(prefix_edit_distance_le(&query, "елка", 1));
    assert!(!prefix_edit_distance_le(&query, "елка", 0));
    // One deleted, one inserted, one replaced.
    assert!(prefix_edit_distance_le(&query, "ёка", 1));
    assert!(prefix_edit_distance_le(&query, "ёлька", 1));
    assert!(prefix_edit_distance_le(&query, "ёлки", 1));
    // A query no longer than the budget is near to anything.
    assert!(prefix_edit_distance_le(&query, "", 4));
    assert!(!prefix_edit_distance_le(&query, "", 3));
    assert!(prefix_edit_distance_le(&[], "xyz", 0));
}

#[test]
fn the_steps_of_normalization() {
    assert_eq!(drop_marks("e\u{301}x\u{5bc}"), "ex");
    assert_eq!(fold("Ǻﬀ Σ"), "aff σ");
    assert_eq!(collapse("  a--b c_d'e. "), "a b cde");
    assert!(is_separator('/') && is_separator('\u{2003}') && is_separator('\t'));
    assert!(!is_separator('_') && !is_separator('a'));
}

#[test]
fn a_key_folds_to_itself() {
    for s in ["", "A  b", "İstanbul", "ΟΔΟΣ", "Straße", "ǅ", "ẞ", "Ⅷ", "가", "Ω Å", "ﬃ"] {
        let key = normalize(s);
        assert_eq!(normalize(&key), key);
        assert_eq!(collapse(&key), key);
    }
}

#[test]
fn bytes_are_ordered_from_the_first_that_differs() {
    assert_eq!(place_bytes(b"ab", b"b"), Place::Before);
    assert_eq!(place_bytes(b"ab", b"a"), Place::After);
    assert_eq!(place_bytes(b"", b""), Place::Same);
    assert_eq!(place_bytes(&[0x7f], &[0x80]), Place::Before);
}

#[test]
fn records_are_lined_up_in_the_order_in_which_they_are_shown() {
    let lined = sort(vec![rec(2, 1, "b"), rec(1, 1, "b"), rec(9, 1, "a"), rec(5, 3, "z")]);
    assert_eq!(lined, vec![rec(5, 3, "z"), rec(9, 1, "a"), rec(1, 1, "b"), rec(2, 1, "b")]);
    assert!(outranks(&rec(1, 2, "b"), &rec(2, 1, "a")));
    assert!(outranks(&rec(1, 2, "a"), &rec(2, 2, "b")));
    assert!(!outranks(&rec(1, 2, "a"), &rec(2, 2, "a")));
}

fn groups(shown: &[Record]) -> Vec<u64> {
    let mut groups: Vec<u64> = shown.iter().map(|r| r.group).collect();
    groups.sort();
    groups
}

#[test]
fn a_larger_tolerance_only_adds_groups() {
    let idx = opened(towns());
    for q in ["r", "roma", "rigi", "ramans"] {
        let mut before = groups(&idx.suggest(q, usize::MAX).unwrap());
        assert_eq!(idx.suggest(q, 2), idx.suggest_fuzzy(q, 2, 0));
        for edits in 1..3u32 {
            let now = groups(&idx.suggest_fuzzy(q, usize::MAX, edits).unwrap());
            assert!(before.iter().all(|g| now.contains(g)));
            before = now;
        }
    }
}

#[test]
fn typing_on_adds_no_group() {
    let idx = opened(towns());
    let mut before = groups(&idx.suggest("R", usize::MAX).unwrap());
    for q in ["Ro", "ROM", "roma", "Roman", "romans"] {
        let now = groups(&idx.suggest(q, usize::MAX).unwrap());
        assert!(now.iter().all(|g| before.contains(g)));
        before = now;
    }
    assert_eq!(before, vec![2]);
}

#[test]
fn a_query_may_be_folded_beforehand() {
    let idx = opened(towns());
    for q in ["ROM--", " rīg", "Ri"] {
        assert_eq!(idx.suggest(&normalize(q), 8), idx.suggest(q, 8));
    }
}

#[test]
fn a_record_is_read_back_whatever_comes_after_it() {
    let mut b = IndexBuilder::new();
    b.add_key("before", 0);
    assert_eq!(b.add_record(rec(7, 1, "same")), 0);
    assert_eq!(b.add_record(rec(7, 1, "same")), 1);
    b.add_key("x", 1);
    assert_eq!(b.add_record(rec(8, -1, "")), 2);
    b.add_key("x", 0);
    let (_, records) = b.build().unwrap();
    let store = RecordStore::new(records).unwrap();
    assert_eq!(store.n_records(), 3);
    assert_eq!(store.record(1).unwrap(), rec(7, 1, "same"));
    assert_eq!(store.record(2).unwrap(), rec(8, -1, ""));
}

#[test]
fn places_are_compared_by_number() {
    let at = |lat: f64, lon: f64| GeoRecord {
        gid: 1,
        lat_bits: lat.to_bits(),
        lon_bits: lon.to_bits(),
        population: 2,
        country: "A".into(),
        feature_code: "B".into(),
        name: "C".into(),
    };
    let numbers = [0.0, -0.0, 1.5, -1.5, f64::NAN, -f64::NAN, f64::INFINITY, f64::MIN_POSITIVE];
    for a in numbers {
        for b in numbers {
            assert_eq!(at(a, 1.0) == at(b, 1.0), a == b);
            assert_eq!(at(1.0, a) == at(1.0, b), a == b);
        }
    }
    let mut other = at(1.0, 1.0);
    other.name.push('x');
    assert_ne!(other, at(1.0, 1.0));
}

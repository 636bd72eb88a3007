//! Places over the engine.
use geo_trie_rs::{normalize, GeoRecord, Index, IndexBuilder, Record};

fn geo(gid: u64, name: &str, country: &str, pop: i64) -> GeoRecord {
    GeoRecord {
        gid,
        lat_bits: (52.52f64).to_bits(),
        lon_bits: (13.41f64).to_bits(),
        population: pop,
        country: country.into(),
        feature_code: "PPLC".into(),
        name: name.into(),
    }
}

#[test]
fn record_roundtrips() {
    let g = geo(2950159, "Berlin", "DE", 3_426_354);
    let decoded = GeoRecord::from_record(&g.to_record()).unwrap();
    assert_eq!(decoded, g);
}

#[test]
fn build_and_suggest_geo() {
    let mut b = IndexBuilder::new();
    let berlin = b.add_record(geo(1, "Berlin", "DE", 3_426_354).to_record());
    let bern = b.add_record(geo(2, "Bern", "CH", 121_631).to_record());
    for k in ["berlin", "ber"] {
        b.add_key(k, berlin);
    }
    for k in ["bern", "ber"] {
        b.add_key(k, bern);
    }
    let (fst, records) = b.build().unwrap();
    let idx = Index::from_bytes(fst, records).unwrap();

    let hits = idx.suggest_geo("ber", 8).unwrap();
    assert_eq!(hits.len(), 2);
    assert_eq!(hits[0].name, "Berlin"); // higher population first
    assert_eq!(hits[0].country, "DE");
    assert_eq!(hits[1].name, "Bern");
}

#[test]
fn suggest_geo_fuzzy_recovers_typo_and_off_matches_exact() {
    let mut b = IndexBuilder::new();
    let sol = b.add_record(geo(3143244, "Solnechnogorsk", "RU", 52_798).to_record());
    b.add_key("solnechnogorsk", sol);
    b.add_key("солнечногорск", sol);
    let (fst, records) = b.build().unwrap();
    let idx = Index::from_bytes(fst, records).unwrap();

    // Typo tolerated at edit distance 1 (Cyrillic too).
    let hits = idx.suggest_geo_fuzzy("солнечо", 8, 1).unwrap();
    assert_eq!(hits.len(), 1);
    assert_eq!(hits[0].name, "Solnechnogorsk");

    // max_edits == 0 is identical to the exact geo suggest.
    assert_eq!(
        idx.suggest_geo("solnech", 8).unwrap(),
        idx.suggest_geo_fuzzy("solnech", 8, 0).unwrap(),
    );
}

#[test]
fn edge_values_and_unicode_roundtrip() {
    let g = GeoRecord {
        gid: u64::MAX,
        lat_bits: (-89.999f64).to_bits(),
        lon_bits: (179.999f64).to_bits(),
        population: 0,
        country: String::new(), // empty string field
        feature_code: "PPL".into(),
        name: "Улан-Удэ".into(), // unicode + would-be-separator inside name
    };
    assert_eq!(GeoRecord::from_record(&g.to_record()).unwrap(), g);
}

#[test]
fn malformed_payload_errors() {
    // A record whose payload is too short to hold lat/lon must error, not panic.
    let bad = Record {
        group: 1,
        rank: 1,
        payload: vec![0, 1, 2],
    };
    assert!(GeoRecord::from_record(&bad).is_err());
}

#[test]
fn suggest_geo_dedups_by_gid_over_aliases() {
    let mut b = IndexBuilder::new();
    let berlin = b.add_record(geo(2950159, "Berlin", "DE", 3_426_354).to_record());
    // Same place reachable via several aliases -> must appear once.
    for k in ["berlin", "berlín", "берлин", "ber"] {
        b.add_key(&normalize(k), berlin);
    }
    let (fst, records) = b.build().unwrap();
    let idx = Index::from_bytes(fst, records).unwrap();

    let hits = idx.suggest_geo("ber", 8).unwrap();
    assert_eq!(hits.len(), 1);
    assert_eq!(hits[0].gid, 2950159);
}

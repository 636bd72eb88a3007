//! One engine, several domains.
use geo_trie_rs::{normalize, GeoRecord, Index, IndexBuilder, Record};

fn geo(gid: u64, name: &str, country: &str, pop: i64) -> GeoRecord {
    GeoRecord {
        gid,
        lat_bits: (0.0f64).to_bits(),
        lon_bits: (0.0f64).to_bits(),
        population: pop,
        country: country.into(),
        feature_code: "PPL".into(),
        name: name.into(),
    }
}

#[test]
fn geo_build_and_query_in_memory() {
    let mut b = IndexBuilder::new();
    let moscow = b.add_record(geo(1, "Moscow", "RU", 10_381_222).to_record());
    let solnech = b.add_record(geo(2, "Solnechnogorsk", "RU", 52_798).to_record());

    for key in ["moscow", "moskva", "москва", "mos"] {
        b.add_key(key, moscow);
    }
    for key in ["solnechnogorsk", "солнечногорск"] {
        b.add_key(key, solnech);
    }

    let (fst, records) = b.build().unwrap();
    let idx = Index::from_bytes(fst, records).unwrap();

    let hits = idx.suggest_geo("mos", 8).unwrap();
    assert_eq!(hits.len(), 1);
    assert_eq!(hits[0].name, "Moscow");
    assert_eq!(hits[0].country, "RU");

    // Cyrillic prefix folds through normalization too.
    let hits = idx.suggest_geo("Солнеч", 8).unwrap();
    assert_eq!(hits.len(), 1);
    assert_eq!(hits[0].gid, 2);
}

// People: the group is the person, the rank a relevance score, the payload
// "Surname|Department".

struct Person {
    id: u64,
    score: i64,
    full_name: &'static str,
    department: &'static str,
    /// Alias keys to index under (e.g. "Surname Name", transliterations).
    keys: &'static [&'static str],
}

fn person_record(p: &Person) -> Record {
    Record {
        group: p.id,
        rank: p.score,
        payload: format!("{}|{}", p.full_name, p.department).into_bytes(),
    }
}

fn decode_person(r: &Record) -> (String, String) {
    let s = String::from_utf8(r.payload.clone()).unwrap();
    let (name, dept) = s.split_once('|').unwrap();
    (name.to_string(), dept.to_string())
}

#[test]
fn people_index_is_just_another_adapter() {
    let people = [
        Person {
            id: 1,
            score: 50,
            full_name: "Иванов Иван Иванович",
            department: "Sales",
            keys: &["Иванов Иван", "Ivanov Ivan"],
        },
        Person {
            id: 2,
            score: 90,
            full_name: "Иванова Мария Петровна",
            department: "Legal",
            keys: &["Иванова Мария", "Ivanova Maria"],
        },
        Person {
            id: 3,
            score: 10,
            full_name: "Петров Пётр Петрович",
            department: "IT",
            keys: &["Петров Пётр", "Petrov Petr"],
        },
    ];

    let mut b = IndexBuilder::new();
    for p in &people {
        let id = b.add_record(person_record(p));
        for k in p.keys {
            b.add_key(&normalize(k), id);
        }
    }
    let (fst, records) = b.build().unwrap();
    let idx = Index::from_bytes(fst, records).unwrap();

    // Prefix "иван" matches both Ivanovs; higher score (Мария, 90) ranks first.
    let hits = idx.suggest("иван", 8).unwrap();
    let decoded: Vec<(String, String)> = hits.iter().map(decode_person).collect();
    assert_eq!(
        decoded,
        vec![
            ("Иванова Мария Петровна".to_string(), "Legal".to_string()),
            ("Иванов Иван Иванович".to_string(), "Sales".to_string()),
        ]
    );

    // Latin transliteration alias resolves to the same person (dedup by group).
    let hits = idx.suggest("petrov", 8).unwrap();
    assert_eq!(hits.len(), 1);
    assert_eq!(hits[0].group, 3);
    assert_eq!(decode_person(&hits[0]).1, "IT");
}

// Products: variants of one product share a group, so that one suggestion is left of them.

#[test]
fn products_index_dedups_variants_and_ranks_by_sales() {
    let mut b = IndexBuilder::new();

    // Product 100: "Aero Runner" sneaker, two color variants, high sales.
    let shoe = b.add_record(Record {
        group: 100,
        rank: 5000,
        payload: br#"{"sku":"AR-1","title":"Aero Runner"}"#.to_vec(),
    });
    for k in [
        "aero runner",
        "aero runner black",
        "aero runner white",
        "aero",
    ] {
        b.add_key(&normalize(k), shoe);
    }

    // Product 200: "Aero Backpack", lower sales.
    let bag = b.add_record(Record {
        group: 200,
        rank: 800,
        payload: br#"{"sku":"AB-9","title":"Aero Backpack"}"#.to_vec(),
    });
    for k in ["aero backpack", "aero"] {
        b.add_key(&normalize(k), bag);
    }

    let (fst, records) = b.build().unwrap();
    let idx = Index::from_bytes(fst, records).unwrap();

    // "aero" reaches both; higher sales first, each product once despite variants.
    let hits = idx.suggest("aero", 8).unwrap();
    assert_eq!(hits.len(), 2);
    assert_eq!(hits[0].group, 100);
    assert_eq!(hits[1].group, 200);
    assert!(hits[0].payload.starts_with(br#"{"sku":"AR-1""#));
}
